//! The writer lease: at most one instance at a time may write to the replicated
//! log, and each one that comes to write fences off those before it.

use vstd::prelude::*;

verus! {

/// How long a renewed lease is held to be valid, in nanoseconds.
pub const LEASE_NANOS: u64 = 4_000_000_000;

/// How long the cluster keeps a lease that is not renewed, in nanoseconds.
pub const LEASE_AGE_NANOS: u64 = 5_000_000_000;

// ---------------------------------------------------------------- one round
/// What an instance does next in a round about the lease.
#[derive(Clone, Copy, Debug, PartialEq, Eq, Structural)]
pub enum LeaseStep {
    /// Looks at the stored lease.
    Look,
    /// Writes its own lease anew, on top of a revision.
    Renew { epoch: u64, revision: u64 },
    /// Creates a lease without an epoch.
    Create,
    /// Writes the revision of the created lease into it as its epoch.
    Confirm { revision: u64 },
    /// Appends a fence with its epoch to the log.
    Fence { epoch: u64 },
    /// Ends the round: with the epoch it holds the lease for, if any, and
    /// whether the lease is lost for certain.
    Settle { renewed: Option<u64>, lost: bool },
}

/// What the cluster replies to a step.
#[derive(Clone, Copy, Debug, PartialEq, Eq, Structural)]
pub enum LeaseReply {
    /// No lease is stored.
    Missing,
    /// A lease is stored; whether it is the instance's own, and its epoch.
    Stored { own: bool, epoch: u64, revision: u64 },
    /// Something is stored that is not a lease.
    Unreadable,
    /// The step was done; for a created lease, at this revision.
    Done { revision: u64 },
    /// The step failed.
    Failed,
}

/// What an instance does after a reply.
pub open spec fn lease_next(step: LeaseStep, reply: LeaseReply) -> LeaseStep {
    match step {
        LeaseStep::Look => match reply {
            LeaseReply::Missing => LeaseStep::Create,
            LeaseReply::Stored { own, epoch, revision } => if own && epoch > 0 {
                LeaseStep::Renew { epoch, revision }
            } else {
                LeaseStep::Settle { renewed: None, lost: true }
            },
            LeaseReply::Unreadable => LeaseStep::Settle { renewed: None, lost: true },
            _ => LeaseStep::Settle { renewed: None, lost: false },
        },
        LeaseStep::Renew { epoch, revision } => match reply {
            LeaseReply::Done { revision: written } => LeaseStep::Settle {
                renewed: Some(epoch),
                lost: false,
            },
            _ => LeaseStep::Settle { renewed: None, lost: false },
        },
        LeaseStep::Create => match reply {
            LeaseReply::Done { revision } => LeaseStep::Confirm { revision },
            _ => LeaseStep::Settle { renewed: None, lost: true },
        },
        LeaseStep::Confirm { revision } => match reply {
            LeaseReply::Done { revision: written } => LeaseStep::Fence { epoch: revision },
            _ => LeaseStep::Settle { renewed: None, lost: true },
        },
        LeaseStep::Fence { epoch } => match reply {
            LeaseReply::Done { revision: written } => LeaseStep::Settle {
                renewed: Some(epoch),
                lost: false,
            },
            _ => LeaseStep::Settle { renewed: None, lost: true },
        },
        LeaseStep::Settle { renewed, lost } => LeaseStep::Look,
    }
}

/// What an instance does after a reply.
pub fn next_step(step: LeaseStep, reply: LeaseReply) -> (next: LeaseStep)
    ensures
        next == lease_next(step, reply),
{
    match step {
        LeaseStep::Look => match reply {
            LeaseReply::Missing => LeaseStep::Create,
            LeaseReply::Stored { own, epoch, revision } => if own && epoch > 0 {
                LeaseStep::Renew { epoch, revision }
            } else {
                LeaseStep::Settle { renewed: None, lost: true }
            },
            LeaseReply::Unreadable => LeaseStep::Settle { renewed: None, lost: true },
            _ => LeaseStep::Settle { renewed: None, lost: false },
        },
        LeaseStep::Renew { epoch, revision: _ } => match reply {
            LeaseReply::Done { revision: _ } => LeaseStep::Settle { renewed: Some(epoch), lost: false },
            _ => LeaseStep::Settle { renewed: None, lost: false },
        },
        LeaseStep::Create => match reply {
            LeaseReply::Done { revision } => LeaseStep::Confirm { revision },
            _ => LeaseStep::Settle { renewed: None, lost: true },
        },
        LeaseStep::Confirm { revision } => match reply {
            LeaseReply::Done { revision: _ } => LeaseStep::Fence { epoch: revision },
            _ => LeaseStep::Settle { renewed: None, lost: true },
        },
        LeaseStep::Fence { epoch } => match reply {
            LeaseReply::Done { revision: _ } => LeaseStep::Settle { renewed: Some(epoch), lost: false },
            _ => LeaseStep::Settle { renewed: None, lost: true },
        },
        LeaseStep::Settle { renewed: _, lost: _ } => LeaseStep::Look,
    }
}

/// The epoch that a step writes into the stored lease.
pub open spec fn epoch_to_write(step: LeaseStep) -> Option<u64> {
    match step {
        LeaseStep::Renew { epoch, revision } => Some(epoch),
        LeaseStep::Create => Some(0),
        LeaseStep::Confirm { revision } => Some(revision),
        _ => None,
    }
}

/// The epoch that a step writes into the stored lease: none yet where it is
/// created, its own where it is renewed, its revision where it is confirmed.
pub fn written_epoch(step: LeaseStep) -> (epoch: Option<u64>)
    ensures
        epoch == (match step {
            LeaseStep::Renew { epoch, revision } => Some(epoch),
            LeaseStep::Create => Some(0u64),
            LeaseStep::Confirm { revision } => Some(revision),
            _ => None,
        }),
        epoch == epoch_to_write(step),
{
    match step {
        LeaseStep::Renew { epoch, revision: _ } => Some(epoch),
        LeaseStep::Create => Some(0),
        LeaseStep::Confirm { revision } => Some(revision),
        _ => None,
    }
}

// ---------------------------------------------------------------- the lease over time
/// What an instance holds of the lease. Times are in nanoseconds.
#[derive(Clone, Copy, Debug)]
pub struct WriterLease {
    pub owned: bool,
    pub valid_until: u64,
    pub epoch: u64,
}

/// What an instance holds after a round that ended at `now`.
pub open spec fn settled(
    state: WriterLease,
    renewed: Option<u64>,
    lost: bool,
    now: u64,
) -> WriterLease {
    match renewed {
        Some(epoch) => WriterLease {
            owned: true,
            valid_until: (now + LEASE_NANOS) as u64,
            epoch,
        },
        None => if lost || now >= state.valid_until {
            WriterLease { owned: false, ..state }
        } else {
            state
        },
    }
}

/// Whether an instance may write at `now` something that takes `required`.
pub open spec fn holds_for(state: WriterLease, required: u64, now: u64) -> bool {
    state.owned && now + required < state.valid_until
}

impl WriterLease {
    /// An instance that starts without the lease.
    pub fn new(now: u64) -> (state: WriterLease)
        ensures
            state == (WriterLease { owned: false, valid_until: now, epoch: 0 }),
            state == without_lease(now),
    {
        WriterLease { owned: false, valid_until: now, epoch: 0 }
    }

    /// Takes in the end of a round.
    pub fn settle(&mut self, renewed: Option<u64>, lost: bool, now: u64)
        requires
            now + LEASE_NANOS <= u64::MAX,
        ensures
            *final(self) == settled(*old(self), renewed, lost, now),
    {
        match renewed {
            Some(epoch) => {
                self.owned = true;
                self.epoch = epoch;
                self.valid_until = now + LEASE_NANOS;
            },
            None => {
                if lost || now >= self.valid_until {
                    self.owned = false;
                }
            },
        }
    }

    /// Whether the lease stays valid for as long as is required.
    pub fn owns_valid_lease_for(&self, required: u64, now: u64) -> (result: bool)
        ensures
            result == holds_for(*self, required, now),
    {
        self.owned && now < self.valid_until && required < self.valid_until - now
    }

    /// The epoch, where the lease stays valid for as long as is required.
    pub fn valid_epoch_for(&self, required: u64, now: u64) -> (epoch: Option<u64>)
        ensures
            epoch == (if holds_for(*self, required, now) {
                Some(self.epoch)
            } else {
                None
            }),
            epoch == epoch_held(*self, required, now),
    {
        if self.owns_valid_lease_for(required, now) {
            Some(self.epoch)
        } else {
            None
        }
    }
}

// ---------------------------------------------------------------- laws
/// A round ends with the lease held for an epoch only after the instance's own
/// lease with that epoch was written anew, or after a fence with that epoch was
/// appended to the log.
pub proof fn law_lease_is_renewed_or_fenced(step: LeaseStep, reply: LeaseReply, epoch: u64, lost: bool)
    requires
        lease_next(step, reply) == (LeaseStep::Settle { renewed: Some(epoch), lost }),
    ensures
        reply is Done,
        step == (LeaseStep::Fence { epoch }) || (step matches LeaseStep::Renew { epoch: own, revision }
            && own == epoch),
        !lost,
{
}

/// An instance writes a lease anew only where the stored one is its own and has an
/// epoch; a fence follows only a created lease that was given its revision.
pub proof fn law_lease_steps_follow_the_stored_lease(step: LeaseStep, reply: LeaseReply)
    ensures
        lease_next(step, reply) matches LeaseStep::Renew { epoch, revision } ==> step is Look && reply
            == (LeaseReply::Stored { own: true, epoch, revision }) && epoch > 0,
        lease_next(step, reply) matches LeaseStep::Fence { epoch } ==> step == (LeaseStep::Confirm {
            revision: epoch,
        }) && reply is Done,
        lease_next(step, reply) matches LeaseStep::Confirm { revision } ==> step is Create && reply
            == (LeaseReply::Done { revision }),
        lease_next(step, reply) is Create ==> step is Look && reply is Missing,
{
}

/// An instance that sees the lease of another, or something that is no lease, may
/// not write after the round.
pub proof fn law_foreign_lease_stops_the_writer(
    state: WriterLease,
    reply: LeaseReply,
    required: u64,
    now: u64,
    later: u64,
)
    requires
        reply is Unreadable || (reply matches LeaseReply::Stored { own, epoch, revision } && !own),
    ensures
        lease_next(LeaseStep::Look, reply) matches LeaseStep::Settle { renewed, lost } && !holds_for(
            settled(state, renewed, lost, now),
            required,
            later,
        ),
{
}

/// Without a renewal the lease runs out: from the end of its validity on the
/// instance may not write, and a round after that takes the lease from it.
pub proof fn law_lease_runs_out(state: WriterLease, required: u64, lost: bool, now: u64)
    requires
        now >= state.valid_until,
    ensures
        !holds_for(state, required, now),
        !settled(state, None, lost, now).owned,
{
}

/// An instance may write only for less than the validity of a lease after it was
/// renewed, which is less than the cluster keeps the lease for it.
pub proof fn law_writer_renewed_recently(
    state: WriterLease,
    epoch: u64,
    renewed_at: u64,
    required: u64,
    now: u64,
)
    requires
        renewed_at + LEASE_NANOS <= u64::MAX,
        holds_for(settled(state, Some(epoch), false, renewed_at), required, now),
    ensures
        now + required < renewed_at + LEASE_NANOS,
        now + required < renewed_at + LEASE_AGE_NANOS,
{
}

/// Where a round comes to by replies to its steps.
pub open spec fn lease_run(replies: Seq<LeaseReply>) -> LeaseStep
    decreases replies.len(),
{
    if replies.len() == 0 {
        LeaseStep::Look
    } else {
        lease_next(lease_run(replies.drop_last()), replies.last())
    }
}

/// An instance that finds its own lease with an epoch writes it anew on top of the
/// revision that it found, with the same epoch, and then holds it for that epoch.
pub proof fn law_own_lease_is_renewed(epoch: u64, revision: u64, written: u64)
    requires
        epoch > 0,
    ensures
        ({
            let found = seq![LeaseReply::Stored { own: true, epoch, revision }];
            &&& lease_run(found) == (LeaseStep::Renew { epoch, revision })
            &&& epoch_to_write(lease_run(found)) == Some(epoch)
            &&& lease_run(found.push(LeaseReply::Done { revision: written })) == (LeaseStep::Settle {
                renewed: Some(epoch),
                lost: false,
            })
        }),
{
    let found = seq![LeaseReply::Stored { own: true, epoch, revision }];
    assert(found.drop_last() =~= Seq::empty());
    assert(lease_run(Seq::empty()) is Look);
    assert(found.push(LeaseReply::Done { revision: written }).drop_last() =~= found);
}

/// An instance that finds no lease creates one without an epoch, gives it the revision
/// at which it was created for its epoch, fences off the writers before it with that
/// epoch, and then holds the lease for it.
pub proof fn law_missing_lease_is_taken(revision: u64, confirmed: u64, fenced: u64)
    ensures
        ({
            let missing = seq![LeaseReply::Missing];
            let created = missing.push(LeaseReply::Done { revision });
            let given = created.push(LeaseReply::Done { revision: confirmed });
            &&& lease_run(Seq::empty()) is Look
            &&& lease_run(missing) is Create
            &&& epoch_to_write(lease_run(missing)) == Some(0u64)
            &&& lease_run(created) == (LeaseStep::Confirm { revision })
            &&& epoch_to_write(lease_run(created)) == Some(revision)
            &&& lease_run(given) == (LeaseStep::Fence { epoch: revision })
            &&& lease_run(given.push(LeaseReply::Done { revision: fenced })) == (LeaseStep::Settle {
                renewed: Some(revision),
                lost: false,
            })
        }),
{
    let missing = seq![LeaseReply::Missing];
    let created = missing.push(LeaseReply::Done { revision });
    let given = created.push(LeaseReply::Done { revision: confirmed });
    let done = given.push(LeaseReply::Done { revision: fenced });
    assert(missing.drop_last() =~= Seq::empty());
    assert(created.drop_last() =~= missing);
    assert(given.drop_last() =~= created);
    assert(done.drop_last() =~= given);
    assert(lease_run(Seq::empty()) is Look);
    assert(lease_run(missing) is Create);
    assert(lease_run(created) == (LeaseStep::Confirm { revision }));
    assert(lease_run(given) == (LeaseStep::Fence { epoch: revision }));
}

/// A step that fails ends the round without a renewal. The lease counts as lost where
/// it could not be created, confirmed or fenced, and not where it could not be looked
/// at or renewed: then the instance holds it for as long as it was valid.
pub proof fn law_failed_step_ends_the_round(step: LeaseStep)
    requires
        step !is Settle,
    ensures
        lease_next(step, LeaseReply::Failed) == (LeaseStep::Settle {
            renewed: None,
            lost: !(step is Look || step is Renew),
        }),
{
}

/// A stored lease of another, one without an epoch and something that is no lease are
/// all lost for certain.
pub proof fn law_stored_lease_of_another_is_lost(own: bool, epoch: u64, revision: u64)
    requires
        !own || epoch == 0,
    ensures
        lease_next(LeaseStep::Look, LeaseReply::Stored { own, epoch, revision }) == (
        LeaseStep::Settle { renewed: None, lost: true }),
        lease_next(LeaseStep::Look, LeaseReply::Unreadable) == (LeaseStep::Settle {
            renewed: None,
            lost: true,
        }),
{
}

/// After a round ends, the next one begins with a look at the stored lease.
pub proof fn law_rounds_follow_each_other(renewed: Option<u64>, lost: bool, reply: LeaseReply)
    ensures
        lease_next(LeaseStep::Settle { renewed, lost }, reply) is Look,
{
}

/// An instance may write exactly for as long as four seconds after the lease was
/// renewed have not run out, under the epoch that it was renewed for.
pub proof fn law_renewed_lease_lets_write(
    state: WriterLease,
    epoch: u64,
    lost: bool,
    renewed_at: u64,
    required: u64,
    now: u64,
)
    requires
        renewed_at + 4_000_000_000 <= u64::MAX,
    ensures
        ({
            let held = settled(state, Some(epoch), lost, renewed_at);
            &&& holds_for(held, required, now) <==> now + required < renewed_at + 4_000_000_000
            &&& held.epoch == epoch
            &&& held.owned
        }),
{
}

/// A round that neither renews the lease nor loses it for certain leaves an instance
/// as it was, while the lease is valid; and one that loses it takes only the lease.
pub proof fn law_undecided_round_changes_nothing(state: WriterLease, lost: bool, now: u64)
    ensures
        now < state.valid_until ==> settled(state, None, false, now) == state,
        lost || now >= state.valid_until ==> !settled(state, None, lost, now).owned,
        settled(state, None, lost, now).epoch == state.epoch,
        settled(state, None, lost, now).valid_until == state.valid_until,
{
}

/// An instance that holds the lease may write what ends before the lease does.
pub proof fn law_held_lease_lets_write_until_it_ends(state: WriterLease, required: u64, now: u64)
    ensures
        state.owned && now + required < state.valid_until ==> holds_for(state, required, now),
        holds_for(state, required, now) ==> state.owned && now + required < state.valid_until,
{
}

/// What an instance holds that starts without the lease.
pub open spec fn without_lease(now: u64) -> WriterLease {
    WriterLease { owned: false, valid_until: now, epoch: 0 }
}

/// The epoch under which an instance may write, if it may.
pub open spec fn epoch_held(state: WriterLease, required: u64, now: u64) -> Option<u64> {
    if holds_for(state, required, now) {
        Some(state.epoch)
    } else {
        None
    }
}

/// An instance that has just started may not write at any time before it has taken the
/// lease.
pub proof fn law_new_instance_may_not_write(started: u64, required: u64, now: u64, lost: bool)
    ensures
        !holds_for(without_lease(started), required, now),
        !holds_for(settled(without_lease(started), None, lost, now), required, now),
        epoch_held(without_lease(started), required, now) is None,
{
}

/// An instance writes under the epoch that it renewed the lease for last, while the
/// lease lasts, and under none after that.
pub proof fn law_writer_writes_under_its_epoch(
    state: WriterLease,
    epoch: u64,
    renewed_at: u64,
    required: u64,
    now: u64,
)
    requires
        renewed_at + 4_000_000_000 <= u64::MAX,
    ensures
        ({
            let held = settled(state, Some(epoch), false, renewed_at);
            &&& now + required < renewed_at + 4_000_000_000 ==> epoch_held(held, required, now)
                == Some(epoch)
            &&& now + required >= renewed_at + 4_000_000_000 ==> epoch_held(
                held,
                required,
                now,
            ) is None
        }),
{
}

} // verus!
