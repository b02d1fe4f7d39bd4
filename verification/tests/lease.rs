use warehouse_lab::lease::{next_step, written_epoch, LeaseReply, LeaseStep, WriterLease, LEASE_NANOS};

const SECOND: u64 = 1_000_000_000;

#[test]
fn lease_is_created_confirmed_and_fenced() {
    let create = next_step(LeaseStep::Look, LeaseReply::Missing);
    assert_eq!(create, LeaseStep::Create);
    assert_eq!(written_epoch(create), Some(0));
    let confirm = next_step(create, LeaseReply::Done { revision: 17 });
    assert_eq!(confirm, LeaseStep::Confirm { revision: 17 });
    assert_eq!(written_epoch(confirm), Some(17));
    let fence = next_step(confirm, LeaseReply::Done { revision: 18 });
    assert_eq!(fence, LeaseStep::Fence { epoch: 17 });
    assert_eq!(written_epoch(fence), None);
    let settle = next_step(fence, LeaseReply::Done { revision: 99 });
    assert_eq!(settle, LeaseStep::Settle { renewed: Some(17), lost: false });
    assert_eq!(next_step(settle, LeaseReply::Missing), LeaseStep::Look);
}

#[test]
fn own_lease_is_renewed() {
    let renew = next_step(LeaseStep::Look, LeaseReply::Stored { own: true, epoch: 5, revision: 8 });
    assert_eq!(renew, LeaseStep::Renew { epoch: 5, revision: 8 });
    assert_eq!(written_epoch(renew), Some(5));
    assert_eq!(
        next_step(renew, LeaseReply::Done { revision: 9 }),
        LeaseStep::Settle { renewed: Some(5), lost: false }
    );
    assert_eq!(next_step(renew, LeaseReply::Failed), LeaseStep::Settle { renewed: None, lost: false });
}

#[test]
fn foreign_or_unconfirmed_lease_is_lost() {
    let lost = LeaseStep::Settle { renewed: None, lost: true };
    assert_eq!(next_step(LeaseStep::Look, LeaseReply::Stored { own: false, epoch: 5, revision: 8 }), lost);
    assert_eq!(next_step(LeaseStep::Look, LeaseReply::Stored { own: true, epoch: 0, revision: 8 }), lost);
    assert_eq!(next_step(LeaseStep::Look, LeaseReply::Unreadable), lost);
    assert_eq!(next_step(LeaseStep::Create, LeaseReply::Failed), lost);
    assert_eq!(next_step(LeaseStep::Confirm { revision: 1 }, LeaseReply::Failed), lost);
    assert_eq!(next_step(LeaseStep::Fence { epoch: 1 }, LeaseReply::Failed), lost);
    assert_eq!(
        next_step(LeaseStep::Look, LeaseReply::Failed),
        LeaseStep::Settle { renewed: None, lost: false }
    );
}

#[test]
fn lease_is_valid_for_four_seconds() {
    let mut lease = WriterLease::new(0);
    assert!(!lease.owns_valid_lease_for(0, 0));
    lease.settle(Some(7), false, 10 * SECOND);
    assert_eq!(lease.valid_epoch_for(2 * SECOND, 10 * SECOND), Some(7));
    assert!(lease.owns_valid_lease_for(LEASE_NANOS - 1, 10 * SECOND));
    assert!(!lease.owns_valid_lease_for(LEASE_NANOS, 10 * SECOND));
    assert_eq!(lease.valid_epoch_for(2 * SECOND, 12 * SECOND), None);
    assert!(!lease.owns_valid_lease_for(0, 14 * SECOND));
    assert!(!lease.owns_valid_lease_for(u64::MAX, 10 * SECOND));
}

#[test]
fn unanswered_rounds_keep_the_lease_until_it_runs_out() {
    let mut lease = WriterLease::new(0);
    lease.settle(Some(7), false, 0);
    lease.settle(None, false, 3 * SECOND);
    assert!(lease.owned);
    lease.settle(None, false, 4 * SECOND);
    assert!(!lease.owned);
    lease.settle(Some(8), false, 5 * SECOND);
    assert_eq!(lease.epoch, 8);
    lease.settle(None, true, 6 * SECOND);
    assert!(!lease.owned);
    assert_eq!(lease.valid_epoch_for(0, 6 * SECOND), None);
}
