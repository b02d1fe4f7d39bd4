//! What a node makes of the files it finds when it starts: which of them it uses,
//! which it sets aside, and from where it catches up with the replicated log.

use vstd::prelude::*;

verus! {

/// What a snapshot says of itself.
#[derive(Clone, Copy, Debug, PartialEq, Eq, Structural)]
pub struct SnapshotMark {
    pub version: u32,
    pub sequence: u64,
    pub writer_epoch: u64,
}

/// The start of a node, as far as it has come.
#[derive(Clone, Copy, Debug, PartialEq, Eq, Structural)]
pub struct Startup {
    /// Whether there is a replicated log to rebuild from.
    clustered: bool,
    /// Whether the state is to be rebuilt from the replicated log.
    rebuild: bool,
    /// The snapshot that is to be used.
    snapshot: Option<SnapshotMark>,
    /// Whether there is a disk index from before.
    index_existed: bool,
}

/// What the start of a node says.
pub ghost struct StartupView {
    pub clustered: bool,
    pub rebuild: bool,
    pub snapshot: Option<SnapshotMark>,
    pub index_existed: bool,
}

impl View for Startup {
    type V = StartupView;

    closed spec fn view(&self) -> StartupView {
        StartupView {
            clustered: self.clustered,
            rebuild: self.rebuild,
            snapshot: self.snapshot,
            index_existed: self.index_existed,
        }
    }
}

/// The start of a node that could or could not load its snapshot.
pub open spec fn after_load(clustered: bool, loaded: Result<Option<SnapshotMark>, ()>) -> StartupView {
    match loaded {
        Ok(snapshot) => StartupView { clustered, rebuild: false, snapshot, index_existed: false },
        Err(()) => StartupView {
            clustered,
            rebuild: clustered,
            snapshot: None,
            index_existed: false,
        },
    }
}

/// Whether the disk index is of the kind that held everything in one file.
pub open spec fn is_monolithic(start: StartupView, index_exists: bool, history_exists: bool) -> bool {
    index_exists && !history_exists && start.clustered
}

/// The start after a look at the index files.
pub open spec fn after_index_look(
    start: StartupView,
    index_exists: bool,
    history_exists: bool,
) -> StartupView {
    if is_monolithic(start, index_exists, history_exists) {
        StartupView { rebuild: true, snapshot: None, ..start }
    } else {
        start
    }
}

/// Whether the disk index says more than the state that is to be rebuilt.
pub open spec fn is_index_stale(start: StartupView, index_exists: bool) -> bool {
    start.rebuild && start.snapshot is None && index_exists
}

/// The start after it is known whether there is a disk index.
pub open spec fn after_index_check(start: StartupView, index_exists: bool) -> StartupView {
    StartupView { index_existed: index_exists && !is_index_stale(start, index_exists), ..start }
}

/// What to do where something cannot be opened.
#[derive(Clone, Copy, Debug, PartialEq, Eq, Structural)]
pub enum Opening {
    /// It was opened.
    Use,
    /// It is set aside, and a new one is opened.
    Replace,
    /// The node does not start.
    Fail,
}

/// What to do after something was opened or not.
pub open spec fn opening(start: StartupView, opened: bool) -> Opening {
    if opened {
        Opening::Use
    } else if start.clustered {
        Opening::Replace
    } else {
        Opening::Fail
    }
}

/// The start after the disk index was opened or not.
pub open spec fn after_index_open(start: StartupView, opened: bool) -> StartupView {
    if opening(start, opened) is Replace {
        StartupView { rebuild: true, snapshot: None, ..start }
    } else {
        start
    }
}

/// Whether the snapshot says nothing of identifiers and the index that does is gone.
pub open spec fn is_snapshot_orphaned(start: StartupView) -> bool {
    !start.index_existed && (start.snapshot matches Some(mark) && mark.version >= 2)
}

/// The start after it is known whether the snapshot can be used.
pub open spec fn after_snapshot_check(start: StartupView) -> StartupView {
    if is_snapshot_orphaned(start) {
        StartupView { rebuild: start.clustered, snapshot: None, ..start }
    } else {
        start
    }
}

/// The start after the local log was opened or not.
pub open spec fn after_wal_open(start: StartupView, opened: bool) -> StartupView {
    if opening(start, opened) is Replace {
        StartupView { rebuild: true, ..start }
    } else {
        start
    }
}

/// What becomes of the checkpoint.
#[derive(Clone, Copy, Debug, PartialEq, Eq, Structural)]
pub enum CheckpointAction {
    /// It goes back to the beginning.
    Reset,
    /// It goes forward to the snapshot.
    Advance { sequence: u64, writer_epoch: u64 },
    /// It stays where it is.
    Keep,
}

/// What becomes of a checkpoint that stands at `current`.
pub open spec fn checkpoint_after(start: StartupView, current: u64) -> CheckpointAction {
    if start.rebuild {
        CheckpointAction::Reset
    } else {
        match start.snapshot {
            Some(mark) => if mark.sequence > current {
                CheckpointAction::Advance {
                    sequence: mark.sequence,
                    writer_epoch: mark.writer_epoch,
                }
            } else {
                CheckpointAction::Keep
            },
            None => CheckpointAction::Keep,
        }
    }
}

impl Startup {
    /// A node rebuilds from the replicated log only where there is one.
    pub closed spec fn wf(&self) -> bool {
        self.rebuild ==> self.clustered
    }

    /// A node starts with the snapshot that it loaded; a damaged one is set aside.
    pub fn new(clustered: bool, loaded: Result<Option<SnapshotMark>, ()>) -> (start: Startup)
        ensures
            start.wf(),
            start@ == after_load(clustered, loaded),
    {
        match loaded {
            Ok(snapshot) => Startup { clustered, rebuild: false, snapshot, index_existed: false },
            Err(()) => Startup {
                clustered,
                rebuild: clustered,
                snapshot: None,
                index_existed: false,
            },
        }
    }

    /// Looks at the index files; says whether the index is to be archived.
    pub fn look_at_index(&mut self, index_exists: bool, history_exists: bool) -> (archive: bool)
        requires
            old(self).wf(),
        ensures
            final(self).wf(),
            final(self)@ == after_index_look(old(self)@, index_exists, history_exists),
            archive == is_monolithic(old(self)@, index_exists, history_exists),
    {
        if index_exists && !history_exists && self.clustered {
            self.rebuild = true;
            self.snapshot = None;
            return true;
        }
        false
    }

    /// Takes in whether there is a disk index; says whether it is to be set aside.
    pub fn check_index(&mut self, index_exists: bool) -> (discard: bool)
        requires
            old(self).wf(),
        ensures
            final(self).wf(),
            final(self)@ == after_index_check(old(self)@, index_exists),
            discard == is_index_stale(old(self)@, index_exists),
    {
        let discard: bool = self.rebuild && self.snapshot.is_none() && index_exists;
        self.index_existed = index_exists && !discard;
        discard
    }

    /// Takes in whether the disk index was opened.
    pub fn index_opened(&mut self, opened: bool) -> (action: Opening)
        requires
            old(self).wf(),
        ensures
            final(self).wf(),
            final(self)@ == after_index_open(old(self)@, opened),
            action == opening(old(self)@, opened),
    {
        if opened {
            return Opening::Use;
        }
        if self.clustered {
            self.rebuild = true;
            self.snapshot = None;
            return Opening::Replace;
        }
        Opening::Fail
    }

    /// Drops a snapshot that cannot be used without the index; says whether it did.
    pub fn check_snapshot(&mut self) -> (dropped: bool)
        requires
            old(self).wf(),
        ensures
            final(self).wf(),
            final(self)@ == after_snapshot_check(old(self)@),
            dropped == is_snapshot_orphaned(old(self)@),
    {
        let orphaned: bool = match self.snapshot {
            Some(mark) => !self.index_existed && mark.version >= 2,
            None => false,
        };
        if orphaned {
            self.rebuild = self.clustered;
            self.snapshot = None;
        }
        orphaned
    }

    /// Takes in whether the local log was opened.
    pub fn wal_opened(&mut self, opened: bool) -> (action: Opening)
        requires
            old(self).wf(),
        ensures
            final(self).wf(),
            final(self)@ == after_wal_open(old(self)@, opened),
            action == opening(old(self)@, opened),
    {
        if opened {
            return Opening::Use;
        }
        if self.clustered {
            self.rebuild = true;
            return Opening::Replace;
        }
        Opening::Fail
    }

    /// Whether the snapshot is to be used.
    pub fn uses_snapshot(&self) -> (result: bool)
        ensures
            result == (self@.snapshot is Some),
    {
        self.snapshot.is_some()
    }

    /// What becomes of a checkpoint that stands at `current`.
    pub fn checkpoint_action(&self, current: u64) -> (action: CheckpointAction)
        ensures
            action == checkpoint_after(self@, current),
    {
        if self.rebuild {
            return CheckpointAction::Reset;
        }
        match self.snapshot {
            Some(mark) => if mark.sequence > current {
                CheckpointAction::Advance {
                    sequence: mark.sequence,
                    writer_epoch: mark.writer_epoch,
                }
            } else {
                CheckpointAction::Keep
            },
            None => CheckpointAction::Keep,
        }
    }

    /// A node that stands alone never gives up state in order to rebuild it.
    pub proof fn law_lone_node_never_rebuilds(&self, current: u64)
        requires
            self.wf(),
            !self@.clustered,
        ensures
            !self@.rebuild,
            checkpoint_after(self@, current) !is Reset,
    {
    }
}

// ---------------------------------------------------------------- laws
/// The whole start of a node.
pub open spec fn started(
    clustered: bool,
    loaded: Result<Option<SnapshotMark>, ()>,
    index_exists: bool,
    history_exists: bool,
    index_opened: bool,
    wal_opened: bool,
) -> StartupView {
    let a = after_index_look(after_load(clustered, loaded), index_exists, history_exists);
    // An archived index is gone.
    let archived = is_monolithic(after_load(clustered, loaded), index_exists, history_exists);
    let b = after_index_check(a, index_exists && !archived);
    let c = after_snapshot_check(after_index_open(b, index_opened));
    after_wal_open(c, wal_opened)
}

/// A node that starts uses a snapshot without identifiers only together with the
/// disk index that has them.
pub proof fn law_snapshot_is_used_with_its_index(
    clustered: bool,
    loaded: Result<Option<SnapshotMark>, ()>,
    index_exists: bool,
    history_exists: bool,
    index_opened: bool,
    wal_opened: bool,
)
    ensures
        ({
            let end = started(
                clustered,
                loaded,
                index_exists,
                history_exists,
                index_opened,
                wal_opened,
            );
            end.snapshot matches Some(mark) && mark.version >= 2 ==> index_exists && end.index_existed
        }),
{
}

/// Whatever a node of a cluster finds damaged or gives up, it catches up with the
/// replicated log from the beginning.
pub proof fn law_damage_means_rebuilding(
    loaded: Result<Option<SnapshotMark>, ()>,
    index_exists: bool,
    history_exists: bool,
    index_opened: bool,
    wal_opened: bool,
    current: u64,
)
    requires
        loaded is Err || !index_opened || !wal_opened || (index_exists && !history_exists) || (loaded
            matches Ok(Some(mark)) && mark.version >= 2 && !index_exists),
    ensures
        checkpoint_after(
            started(true, loaded, index_exists, history_exists, index_opened, wal_opened),
            current,
        ) is Reset,
{
}

/// A node whose files are all in order starts from its snapshot, and its
/// checkpoint never goes back.
pub proof fn law_sound_files_are_used(
    clustered: bool,
    snapshot: Option<SnapshotMark>,
    current: u64,
)
    ensures
        ({
            let end = started(clustered, Ok(snapshot), true, true, true, true);
            &&& end.snapshot == snapshot
            &&& !end.rebuild
            &&& checkpoint_after(end, current) matches CheckpointAction::Advance {
                sequence,
                writer_epoch,
            } ==> sequence > current
        }),
{
}

/// A node of a cluster catches up from the beginning only where something is damaged
/// or given up: the snapshot cannot be read, a file cannot be opened, the index is of
/// the old kind, or a snapshot without identifiers has lost the index.
pub proof fn law_rebuilding_means_damage(
    loaded: Result<Option<SnapshotMark>, ()>,
    index_exists: bool,
    history_exists: bool,
    index_opened: bool,
    wal_opened: bool,
    current: u64,
)
    requires
        checkpoint_after(
            started(true, loaded, index_exists, history_exists, index_opened, wal_opened),
            current,
        ) is Reset,
    ensures
        loaded is Err || !index_opened || !wal_opened || (index_exists && !history_exists) || (loaded
            matches Ok(Some(mark)) && mark.version >= 2 && !index_exists),
{
}

/// The snapshot that a node of a cluster loaded is used exactly where the index is
/// not of the old kind and could be opened, and is there if the snapshot needs it; a
/// node that stands alone drops it only where it needs an index that is not there.
pub proof fn law_snapshot_is_used_where_it_can_be(
    clustered: bool,
    mark: SnapshotMark,
    index_exists: bool,
    history_exists: bool,
    index_opened: bool,
    wal_opened: bool,
)
    ensures
        ({
            let end = started(
                clustered,
                Ok(Some(mark)),
                index_exists,
                history_exists,
                index_opened,
                wal_opened,
            );
            let needs_index = mark.version >= 2;
            let usable = !(needs_index && !index_exists) && (clustered ==> index_opened && !(
            index_exists && !history_exists));
            &&& usable ==> end.snapshot == Some(mark)
            &&& !usable ==> end.snapshot is None
            &&& !clustered ==> !end.rebuild
        }),
{
}

/// Where nothing was loaded no snapshot is used, and a node that stands alone does not
/// rebuild even where its snapshot cannot be read.
pub proof fn law_nothing_loaded_is_nothing_used(
    clustered: bool,
    loaded: Result<Option<SnapshotMark>, ()>,
    index_exists: bool,
    history_exists: bool,
    index_opened: bool,
    wal_opened: bool,
)
    requires
        loaded is Err || loaded == Ok::<Option<SnapshotMark>, ()>(None),
    ensures
        ({
            let end = started(
                clustered,
                loaded,
                index_exists,
                history_exists,
                index_opened,
                wal_opened,
            );
            &&& end.snapshot is None
            &&& !clustered ==> !end.rebuild
            &&& end.clustered == clustered
        }),
{
}

/// What cannot be opened is replaced by a node of a cluster, which then rebuilds; a
/// node that stands alone does not start. What was opened is used, and changes nothing.
pub proof fn law_only_a_cluster_replaces_what_is_broken(start: StartupView, opened: bool)
    ensures
        opened ==> opening(start, opened) is Use && after_index_open(start, opened) == start
            && after_wal_open(start, opened) == start,
        !opened && start.clustered ==> {
            &&& opening(start, opened) is Replace
            &&& after_index_open(start, opened) == (StartupView {
                clustered: true,
                rebuild: true,
                snapshot: None,
                index_existed: start.index_existed,
            })
            &&& after_wal_open(start, opened) == (StartupView {
                clustered: true,
                rebuild: true,
                snapshot: start.snapshot,
                index_existed: start.index_existed,
            })
        },
        !opened && !start.clustered ==> opening(start, opened) is Fail && after_index_open(
            start,
            opened,
        ) == start && after_wal_open(start, opened) == start,
{
}

/// An index is archived exactly where it stands without a history beside it on a node
/// of a cluster; an index is set aside exactly where the state is rebuilt and no
/// snapshot is left that it could go with. An index that was neither is there after.
pub proof fn law_index_is_kept_unless_the_state_is_rebuilt(
    start: StartupView,
    index_exists: bool,
    history_exists: bool,
)
    ensures
        is_monolithic(start, index_exists, history_exists) <==> index_exists && !history_exists
            && start.clustered,
        is_index_stale(start, index_exists) <==> index_exists && start.rebuild && start.snapshot
            is None,
        after_index_check(start, index_exists).index_existed <==> index_exists && !(start.rebuild
            && start.snapshot is None),
        after_index_check(start, index_exists).snapshot == start.snapshot,
        after_index_check(start, index_exists).rebuild == start.rebuild,
        after_index_check(start, index_exists).clustered == start.clustered,
        !(index_exists && !history_exists && start.clustered) ==> after_index_look(
            start,
            index_exists,
            history_exists,
        ) == start,
        index_exists && !history_exists && start.clustered ==> after_index_look(
            start,
            index_exists,
            history_exists,
        ) == (StartupView {
            clustered: true,
            rebuild: true,
            snapshot: None,
            index_existed: start.index_existed,
        }),
{
}

/// A snapshot is dropped exactly where it is of the kind without identifiers and no
/// index is there; only a node of a cluster rebuilds for it.
pub proof fn law_orphaned_snapshot_is_dropped(start: StartupView)
    ensures
        ({
            let orphaned = !start.index_existed && (start.snapshot matches Some(mark) && mark.version
                >= 2);
            let after = after_snapshot_check(start);
            &&& is_snapshot_orphaned(start) <==> orphaned
            &&& orphaned ==> after.snapshot is None && after.rebuild == start.clustered
            &&& !orphaned ==> after.snapshot == start.snapshot && after.rebuild == start.rebuild
            &&& after.clustered == start.clustered && after.index_existed == start.index_existed
        }),
{
}

/// The checkpoint goes back to the beginning exactly where the state is rebuilt;
/// otherwise it goes forward to the snapshot where that is ahead of it, with the
/// snapshot's writer epoch, and else stays.
pub proof fn law_checkpoint_goes_to_the_snapshot(start: StartupView, current: u64)
    ensures
        checkpoint_after(start, current) is Reset <==> start.rebuild,
        !start.rebuild ==> match start.snapshot {
            Some(mark) => {
                &&& mark.sequence > current ==> checkpoint_after(start, current) == (
                CheckpointAction::Advance {
                    sequence: mark.sequence,
                    writer_epoch: mark.writer_epoch,
                })
                &&& mark.sequence <= current ==> checkpoint_after(start, current) is Keep
            },
            None => checkpoint_after(start, current) is Keep,
        },
{
}

/// A node starts with the snapshot that it loaded and rebuilds nothing yet, unless the
/// snapshot cannot be read and there is a cluster to rebuild from.
pub proof fn law_start_begins_with_what_was_loaded(
    clustered: bool,
    snapshot: Option<SnapshotMark>,
)
    ensures
        after_load(clustered, Ok(snapshot)) == (StartupView {
            clustered,
            rebuild: false,
            snapshot,
            index_existed: false,
        }),
        after_load(clustered, Err(())) == (StartupView {
            clustered,
            rebuild: clustered,
            snapshot: None,
            index_existed: false,
        }),
{
}

} // verus!
