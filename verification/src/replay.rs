//! Following the replicated log: which of its batches count, and how far they have
//! been taken in.

use vstd::prelude::*;
use vstd::string::StringExecFns;

use crate::binary::LogView;
use crate::checkpoint::{advanced, Checkpoint};
use crate::cluster::LogRecord;
use crate::model::{operation_views, Operation, OperationView};
use crate::text::{append_decimal, decimal_text};

verus! {

/// How many messages are taken in before the checkpoint is advanced.
pub const CHECKPOINT_EVERY: usize = 64;

/// The epoch that stands for a message that was not let in.
pub const POISON_EPOCH: u64 = u64::MAX;

// ---------------------------------------------------------------- one message
/// The writer epoch after a message: a fence with a higher one sets it.
pub open spec fn epoch_after(epoch: u64, record: LogView) -> u64 {
    match record {
        LogView::Fence { epoch: fence, owner } => if fence > epoch {
            fence
        } else {
            epoch
        },
        LogView::Operations { epoch: writer, operations } => epoch,
    }
}

/// The operations of a message that count: those of the writer that the epoch is of.
pub open spec fn counted_ops(epoch: u64, record: LogView) -> Seq<OperationView> {
    match record {
        LogView::Fence { epoch: fence, owner } => Seq::empty(),
        LogView::Operations { epoch: writer, operations } => if writer == epoch {
            operations
        } else {
            Seq::empty()
        },
    }
}

/// Whether a message is set aside: a batch of another writer.
pub open spec fn is_stale(epoch: u64, record: LogView) -> bool {
    record matches LogView::Operations { epoch: writer, operations } && writer != epoch && writer
        != POISON_EPOCH
}

/// Why a batch of another writer is set aside.
pub open spec fn stale_reason(epoch: u64, writer: u64) -> Seq<char> {
    "writer epoch "@ + decimal_text(writer as nat) + " rejected; active epoch is "@ + decimal_text(
        epoch as nat,
    )
}

fn stale_text(epoch: u64, writer: u64) -> (reason: String)
    ensures
        reason@ == stale_reason(epoch, writer),
{
    let mut reason: String = String::from_str("writer epoch ");
    append_decimal(&mut reason, writer);
    reason.append(" rejected; active epoch is ");
    append_decimal(&mut reason, epoch);
    reason
}

/// What is to be done about a message.
#[derive(Debug)]
pub enum ReplayAction {
    /// Nothing but to go on.
    Skip,
    /// Another writer has taken over.
    Activate,
    /// The batch is to be taken in.
    Restore,
    /// The batch is to be set aside, for this reason.
    Quarantine(String),
}

/// Whether `action` is what is to be done about a message.
pub open spec fn is_action(action: ReplayAction, epoch: u64, record: LogView) -> bool {
    match action {
        ReplayAction::Skip => epoch_after(epoch, record) == epoch && counted_ops(epoch, record).len()
            == 0 && !is_stale(epoch, record),
        ReplayAction::Activate => epoch_after(epoch, record) != epoch,
        ReplayAction::Restore => counted_ops(epoch, record).len() > 0,
        ReplayAction::Quarantine(reason) => is_stale(epoch, record) && (record
            matches LogView::Operations { epoch: writer, operations } && reason@ == stale_reason(
            epoch,
            writer,
        )),
    }
}

/// Catching up with the log.
pub struct CatchUp {
    writer_epoch: u64,
    pending: Option<(u64, u64)>,
    since_checkpoint: usize,
}

/// What catching up with the log says.
pub ghost struct CatchUpView {
    /// The writer epoch that the log has come to.
    pub writer_epoch: u64,
    /// Where the log was taken in to and no checkpoint stands yet.
    pub pending: Option<(u64, u64)>,
    /// How many messages were taken in since the last checkpoint.
    pub since_checkpoint: nat,
}

impl View for CatchUp {
    type V = CatchUpView;

    closed spec fn view(&self) -> CatchUpView {
        CatchUpView {
            writer_epoch: self.writer_epoch,
            pending: self.pending,
            since_checkpoint: self.since_checkpoint as nat,
        }
    }
}

/// Catching up after the message at `sequence` was dealt with, and where the
/// checkpoint is to be advanced to, if it is due.
pub open spec fn noted(state: CatchUpView, sequence: u64) -> (CatchUpView, Option<(u64, u64)>) {
    let position = Some((sequence, state.writer_epoch));
    if state.since_checkpoint + 1 >= CHECKPOINT_EVERY {
        (CatchUpView { pending: None, since_checkpoint: 0, ..state }, position)
    } else {
        (
            CatchUpView {
                pending: position,
                since_checkpoint: state.since_checkpoint + 1,
                ..state
            },
            None,
        )
    }
}

impl CatchUp {
    pub closed spec fn wf(&self) -> bool {
        self.since_checkpoint < CHECKPOINT_EVERY
    }

    /// Begins at a checkpoint with this writer epoch.
    pub fn new(writer_epoch: u64) -> (catch_up: CatchUp)
        ensures
            catch_up.wf(),
            catch_up@ == (CatchUpView { writer_epoch, pending: None, since_checkpoint: 0 }),
    {
        CatchUp { writer_epoch, pending: None, since_checkpoint: 0 }
    }

    /// Decides about the next message of the log.
    pub fn decide(&mut self, record: &LogRecord) -> (action: ReplayAction)
        requires
            old(self).wf(),
        ensures
            final(self).wf(),
            final(self)@ == (CatchUpView {
                writer_epoch: epoch_after(old(self)@.writer_epoch, record@),
                ..old(self)@
            }),
            is_action(action, old(self)@.writer_epoch, record@),
    {
        match record {
            LogRecord::Fence { epoch, owner: _ } => {
                if *epoch > self.writer_epoch {
                    self.writer_epoch = *epoch;
                    ReplayAction::Activate
                } else {
                    ReplayAction::Skip
                }
            },
            LogRecord::Operations { epoch, operations } => {
                if *epoch == self.writer_epoch {
                    if operations.len() > 0 {
                        ReplayAction::Restore
                    } else {
                        ReplayAction::Skip
                    }
                } else if *epoch == POISON_EPOCH {
                    ReplayAction::Skip
                } else {
                    ReplayAction::Quarantine(stale_text(self.writer_epoch, *epoch))
                }
            },
        }
    }

    /// Notes that the message at `sequence` is dealt with; says where the checkpoint
    /// is to be advanced to, if it is due.
    pub fn processed(&mut self, sequence: u64) -> (checkpoint: Option<(u64, u64)>)
        requires
            old(self).wf(),
        ensures
            final(self).wf(),
            (final(self)@, checkpoint) == noted(old(self)@, sequence),
    {
        self.since_checkpoint = self.since_checkpoint + 1;
        if self.since_checkpoint >= CHECKPOINT_EVERY {
            self.since_checkpoint = 0;
            self.pending = None;
            return Some((sequence, self.writer_epoch));
        }
        self.pending = Some((sequence, self.writer_epoch));
        None
    }

    /// Where the checkpoint is to be advanced to at the end of the log.
    pub fn finish(&self) -> (checkpoint: Option<(u64, u64)>)
        ensures
            checkpoint == self@.pending,
    {
        self.pending
    }
}

/// The position from which the log is taken in.
pub fn first_sequence(checkpoint: u64) -> (first: u64)
    ensures
        first == if checkpoint < u64::MAX {
            checkpoint + 1
        } else {
            u64::MAX as int
        },
        first == position_after(checkpoint),
{
    checkpoint.saturating_add(1)
}

/// The operations of a message that come to the history, and the epoch after it.
pub fn history_step(epoch: u64, record: LogRecord) -> (step: (u64, Vec<Operation>))
    ensures
        step.0 == epoch_after(epoch, record@),
        operation_views(step.1@) == counted_ops(epoch, record@),
{
    match record {
        LogRecord::Fence { epoch: fence, owner: _ } => {
            let none: Vec<Operation> = Vec::new();
            assert(operation_views(none@) =~= Seq::empty());
            if fence > epoch {
                (fence, none)
            } else {
                (epoch, none)
            }
        },
        LogRecord::Operations { epoch: writer, operations } => {
            if writer == epoch {
                (epoch, operations)
            } else {
                let none: Vec<Operation> = Vec::new();
                assert(operation_views(none@) =~= Seq::empty());
                (epoch, none)
            }
        },
    }
}

/// Whether the history has come to the end of the log.
pub fn history_is_complete(published: u64, last_sequence: u64) -> (result: bool)
    ensures
        result == (published == last_sequence),
{
    published == last_sequence
}

// ---------------------------------------------------------------- laws
/// The writer epoch after messages.
pub open spec fn epoch_of(epoch: u64, records: Seq<LogView>) -> u64
    decreases records.len(),
{
    if records.len() == 0 {
        epoch
    } else {
        epoch_after(epoch_of(epoch, records.drop_last()), records.last())
    }
}

/// The operations of messages that count, one after another.
pub open spec fn replayed(epoch: u64, records: Seq<LogView>) -> Seq<OperationView>
    decreases records.len(),
{
    if records.len() == 0 {
        Seq::empty()
    } else {
        replayed(epoch, records.drop_last()) + counted_ops(
            epoch_of(epoch, records.drop_last()),
            records.last(),
        )
    }
}

/// The writer epoch never goes back.
pub proof fn law_epoch_never_goes_back(epoch: u64, records: Seq<LogView>, more: Seq<LogView>)
    ensures
        epoch_of(epoch, records) <= epoch_of(epoch, records + more),
    decreases more.len(),
{
    if more.len() == 0 {
        assert(records + more =~= records);
    } else {
        law_epoch_never_goes_back(epoch, records, more.drop_last());
        assert((records + more).drop_last() =~= records + more.drop_last());
        assert((records + more).last() == more.last());
    }
}

/// Catching up to a checkpoint and going on from it takes in the same operations
/// as catching up at once.
pub proof fn law_catch_up_resumes_at_a_checkpoint(
    epoch: u64,
    records: Seq<LogView>,
    more: Seq<LogView>,
)
    ensures
        epoch_of(epoch, records + more) == epoch_of(epoch_of(epoch, records), more),
        replayed(epoch, records + more) == replayed(epoch, records) + replayed(
            epoch_of(epoch, records),
            more,
        ),
    decreases more.len(),
{
    if more.len() == 0 {
        assert(records + more =~= records);
        assert(replayed(epoch, records) =~= replayed(epoch, records) + replayed(
            epoch_of(epoch, records),
            more,
        ));
    } else {
        let all = records + more;
        law_catch_up_resumes_at_a_checkpoint(epoch, records, more.drop_last());
        assert(all.drop_last() =~= records + more.drop_last());
        assert(all.last() == more.last());
        let middle = epoch_of(epoch, records);
        let last = counted_ops(epoch_of(middle, more.drop_last()), more.last());
        assert(replayed(epoch, all) =~= replayed(epoch, records) + (replayed(
            middle,
            more.drop_last(),
        ) + last));
    }
}

/// The stored checkpoint after it was to be advanced, if it was.
pub open spec fn stored_after(stored: Checkpoint, due: Option<(u64, u64)>) -> Checkpoint {
    match due {
        Some((sequence, epoch)) => advanced(stored, sequence, epoch),
        None => stored,
    }
}

/// Catching up from a checkpoint through the messages that follow it in the log,
/// and the checkpoint that is stored by then.
pub open spec fn taken_in(start: Checkpoint, records: Seq<LogView>) -> (CatchUpView, Checkpoint)
    decreases records.len(),
{
    if records.len() == 0 {
        (CatchUpView { writer_epoch: start.writer_epoch, pending: None, since_checkpoint: 0 }, start)
    } else {
        let (before, stored) = taken_in(start, records.drop_last());
        let decided = CatchUpView {
            writer_epoch: epoch_after(before.writer_epoch, records.last()),
            ..before
        };
        let (after, due) = noted(decided, (start.sequence + records.len()) as u64);
        (after, stored_after(stored, due))
    }
}

/// The checkpoint moves only over messages that were dealt with, and carries the
/// writer epoch that is active where it stands; at the end of the log it stands at
/// the last message.
pub proof fn law_checkpoint_follows_what_was_taken_in(start: Checkpoint, records: Seq<LogView>)
    requires
        start.sequence + records.len() <= u64::MAX,
    ensures
        ({
            let (state, stored) = taken_in(start, records);
            let end = stored_after(stored, state.pending);
            &&& state.writer_epoch == epoch_of(start.writer_epoch, records)
            &&& start.sequence <= stored.sequence <= start.sequence + records.len()
            &&& stored.writer_epoch == epoch_of(
                start.writer_epoch,
                records.take(stored.sequence - start.sequence),
            )
            &&& end.sequence == start.sequence + records.len()
            &&& end.writer_epoch == state.writer_epoch
        }),
    decreases records.len(),
{
    if records.len() == 0 {
        assert(records.take(0) =~= records);
    } else {
        let front = records.drop_last();
        law_checkpoint_follows_what_was_taken_in(start, front);
        let (before, stored) = taken_in(start, front);
        let k = stored.sequence - start.sequence;
        assert(front.take(k) =~= records.take(k));
        assert(records.take(records.len() as int) =~= records);
    }
}

/// A node that stops while it catches up, and goes on from the checkpoint that is
/// stored by then, takes in whatever it has not taken in before the checkpoint: no
/// operation is left out, and the writer epoch is the same.
pub proof fn law_stopping_leaves_nothing_out(start: Checkpoint, records: Seq<LogView>, more: Seq<LogView>)
    requires
        start.sequence + records.len() <= u64::MAX,
    ensures
        ({
            let stored = taken_in(start, records).1;
            let done = stored.sequence - start.sequence;
            let log = records + more;
            &&& replayed(start.writer_epoch, log) == replayed(start.writer_epoch, log.take(done))
                + replayed(stored.writer_epoch, log.skip(done))
            &&& epoch_of(start.writer_epoch, log) == epoch_of(stored.writer_epoch, log.skip(done))
        }),
{
    law_checkpoint_follows_what_was_taken_in(start, records);
    let stored = taken_in(start, records).1;
    let done = stored.sequence - start.sequence;
    let log = records + more;
    assert(log.take(done) =~= records.take(done));
    assert(log.take(done) + log.skip(done) =~= log);
    law_catch_up_resumes_at_a_checkpoint(start.writer_epoch, log.take(done), log.skip(done));
}

/// A writer that was fenced off is not listened to any more: after a fence with a
/// higher epoch no batch of a lower epoch counts, whatever else the log holds.
pub proof fn law_fenced_writer_is_ignored(
    epoch: u64,
    records: Seq<LogView>,
    fence: u64,
    owner: Seq<char>,
    more: Seq<LogView>,
    writer: u64,
    operations: Seq<OperationView>,
)
    requires
        writer < fence,
    ensures
        counted_ops(
            epoch_of(epoch, records.push(LogView::Fence { epoch: fence, owner }) + more),
            LogView::Operations { epoch: writer, operations },
        ).len() == 0,
{
    let fenced = records.push(LogView::Fence { epoch: fence, owner });
    assert(fenced.drop_last() =~= records);
    assert(epoch_of(epoch, fenced) >= fence);
    law_epoch_never_goes_back(epoch, fenced, more);
}

/// A batch whose epoch is that of the active writer counts in full: all of its
/// operations, in their order, whatever their number. A batch of any other epoch
/// counts for nothing, and so does a fence.
pub proof fn law_batch_of_the_active_writer_counts_in_full(
    epoch: u64,
    writer: u64,
    operations: Seq<OperationView>,
    owner: Seq<char>,
)
    ensures
        counted_ops(epoch, LogView::Operations { epoch, operations }) == operations,
        writer != epoch ==> counted_ops(
            epoch,
            LogView::Operations { epoch: writer, operations },
        ).len() == 0,
        counted_ops(epoch, LogView::Fence { epoch: writer, owner }).len() == 0,
{
}

/// A fence moves the writer epoch to its own where that is higher, and a batch never
/// moves it.
pub proof fn law_only_a_higher_fence_moves_the_epoch(
    epoch: u64,
    fence: u64,
    owner: Seq<char>,
    operations: Seq<OperationView>,
)
    ensures
        fence > epoch ==> epoch_after(epoch, LogView::Fence { epoch: fence, owner }) == fence,
        fence <= epoch ==> epoch_after(epoch, LogView::Fence { epoch: fence, owner }) == epoch,
        epoch_after(epoch, LogView::Operations { epoch: fence, operations }) == epoch,
{
}

/// What is taken in from a log whose batches are all of the active writer is all of
/// its batches, one behind the other.
pub proof fn law_log_of_one_writer_is_taken_in_whole(epoch: u64, batches: Seq<Seq<OperationView>>)
    ensures
        ({
            let log = Seq::new(
                batches.len(),
                |i: int| LogView::Operations { epoch, operations: batches[i] },
            );
            replayed(epoch, log) == batches.flatten() && epoch_of(epoch, log) == epoch
        }),
    decreases batches.len(),
{
    let log = Seq::new(
        batches.len(),
        |i: int| LogView::Operations { epoch, operations: batches[i] },
    );
    if batches.len() == 0 {
        assert(batches.flatten() =~= Seq::empty());
    } else {
        let front = batches.drop_last();
        let front_log = Seq::new(
            front.len(),
            |i: int| LogView::Operations { epoch, operations: front[i] },
        );
        law_log_of_one_writer_is_taken_in_whole(epoch, front);
        assert(log.drop_last() =~= front_log);
        batches.lemma_flatten_and_flatten_alt_are_equivalent();
        front.lemma_flatten_and_flatten_alt_are_equivalent();
        assert(batches.flatten_alt() == front.flatten_alt() + batches.last());
    }
}

/// Each message of the log adds to what is taken in behind what was there: a batch of
/// the writer that is active where it stands adds all of its operations, and any
/// other message nothing.
pub proof fn law_each_message_is_taken_in_once(epoch: u64, records: Seq<LogView>, record: LogView)
    ensures
        replayed(epoch, Seq::empty()).len() == 0,
        epoch_of(epoch, Seq::empty()) == epoch,
        match record {
            LogView::Operations { epoch: writer, operations } => {
                &&& replayed(epoch, records.push(record)) == replayed(epoch, records) + (if writer
                    == epoch_of(epoch, records) {
                    operations
                } else {
                    Seq::empty()
                })
                &&& epoch_of(epoch, records.push(record)) == epoch_of(epoch, records)
            },
            LogView::Fence { epoch: fence, owner } => {
                &&& replayed(epoch, records.push(record)) == replayed(epoch, records)
                &&& epoch_of(epoch, records.push(record)) == if fence > epoch_of(epoch, records) {
                    fence
                } else {
                    epoch_of(epoch, records)
                }
            },
        },
{
    assert(records.push(record).drop_last() =~= records);
    assert(records.push(record).last() == record);
    assert(replayed(epoch, records) + Seq::<OperationView>::empty() =~= replayed(epoch, records));
}

/// About each message one thing is done: a batch of the active writer is taken in
/// unless it is empty; a batch of another writer is set aside, with both epochs named,
/// unless it stands for a message that was not let in; a fence with a higher epoch is
/// followed; and nothing is done about any other message.
pub proof fn law_each_message_is_dealt_with(action: ReplayAction, epoch: u64, record: LogView)
    requires
        is_action(action, epoch, record),
    ensures
        match record {
            LogView::Operations { epoch: writer, operations } => {
                &&& writer == epoch && operations.len() > 0 ==> action is Restore
                &&& writer == epoch && operations.len() == 0 ==> action is Skip
                &&& writer != epoch && writer == 0xffff_ffff_ffff_ffff ==> action is Skip
                &&& writer != epoch && writer != 0xffff_ffff_ffff_ffff ==> (action
                    matches ReplayAction::Quarantine(reason) && reason@ == "writer epoch "@
                    + decimal_text(writer as nat) + " rejected; active epoch is "@ + decimal_text(
                    epoch as nat,
                ))
            },
            LogView::Fence { epoch: fence, owner } => {
                &&& fence > epoch ==> action is Activate
                &&& fence <= epoch ==> action is Skip
            },
        },
{
}

/// The checkpoint falls due with every sixty-fourth message and then stands at that
/// message, with the active writer epoch; otherwise the position is kept until it
/// falls due or the log ends. The writer epoch is left as it is.
pub proof fn law_checkpoint_falls_due_every_so_often(state: CatchUpView, sequence: u64)
    ensures
        ({
            let (after, due) = noted(state, sequence);
            &&& after.writer_epoch == state.writer_epoch
            &&& state.since_checkpoint >= 63 ==> due == Some((sequence, state.writer_epoch))
                && after.pending is None && after.since_checkpoint == 0
            &&& state.since_checkpoint < 63 ==> due is None && after.pending == Some(
                (sequence, state.writer_epoch),
            ) && after.since_checkpoint == state.since_checkpoint + 1
        }),
{
}

/// The position after a checkpoint.
pub open spec fn position_after(checkpoint: u64) -> u64 {
    if checkpoint == u64::MAX {
        checkpoint
    } else {
        (checkpoint + 1) as u64
    }
}

/// The log is taken in from right behind the checkpoint: nothing up to it is taken in
/// again, and nothing behind it is left out.
pub proof fn law_log_is_taken_in_behind_the_checkpoint(checkpoint: u64, position: u64)
    requires
        checkpoint < 0xffff_ffff_ffff_ffff,
    ensures
        position >= position_after(checkpoint) <==> position > checkpoint,
        position_after(0xffff_ffff_ffff_ffff) == 0xffff_ffff_ffff_ffff,
{
}

/// What stands in the log in place of a message that was not let in counts for nothing
/// and is not set aside, whoever the writer is, and the writer stays.
pub proof fn law_poison_is_passed_over(epoch: u64)
    ensures
        ({
            let poison = LogView::Operations {
                epoch: 0xffff_ffff_ffff_ffff,
                operations: Seq::empty(),
            };
            &&& counted_ops(epoch, poison).len() == 0
            &&& !is_stale(epoch, poison)
            &&& epoch_after(epoch, poison) == epoch
            &&& is_action(ReplayAction::Skip, epoch, poison)
        }),
{
}

} // verus!
