//! What a node answers to a request: which requests it refuses and how, and how a
//! batch comes from a request to the answer.

use vstd::prelude::*;
use vstd::string::StringExecFns;

use crate::cluster::{
    first_complaint, law_first_complaint_is_that_of_the_first_bad_operation, lemma_complaint_stays,
};
use crate::dedup::ConflictError;
use crate::history::{
    entries_ordered, law_first_page_holds_the_first_entries, law_pages_follow_without_gap, new_page,
    operations_from, read_page,
};
use crate::model::{operation_complaint, operation_views, Operation, OperationView};
use crate::text::{append_decimal, decimal_text};

verus! {

/// The most operations that a batch may hold.
pub const MAX_BATCH: usize = 10_000;

/// The most operations that a page of the history may hold.
pub const MAX_PAGE: usize = 1_000;

/// How many operations a page of the history holds where nothing is said.
pub const DEFAULT_PAGE: usize = 100;

// ---------------------------------------------------------------- refusals
/// How a request is refused.
#[derive(Clone, Copy, Debug, PartialEq, Eq, Structural)]
pub enum RefusalKind {
    BadRequest,
    NotFound,
    Conflict,
    Unavailable,
}

/// A refusal of a request.
#[derive(Debug)]
pub struct Refusal {
    pub kind: RefusalKind,
    pub message: String,
}

/// What a refusal says.
pub ghost struct RefusalView {
    pub kind: RefusalKind,
    pub message: Seq<char>,
}

impl View for Refusal {
    type V = RefusalView;

    open spec fn view(&self) -> RefusalView {
        RefusalView { kind: self.kind, message: self.message@ }
    }
}

/// The HTTP status of a refusal.
pub fn status_code(kind: RefusalKind) -> (code: u16)
    ensures
        code == (match kind {
            RefusalKind::BadRequest => 400u16,
            RefusalKind::NotFound => 404u16,
            RefusalKind::Conflict => 409u16,
            RefusalKind::Unavailable => 503u16,
        }),
        code == status_of(kind),
{
    match kind {
        RefusalKind::BadRequest => 400,
        RefusalKind::NotFound => 404,
        RefusalKind::Conflict => 409,
        RefusalKind::Unavailable => 503,
    }
}

/// What a bad request is answered.
pub fn bad_request(message: &str) -> (refusal: Refusal)
    ensures
        refusal@ == (RefusalView { kind: RefusalKind::BadRequest, message: message@ }),
{
    Refusal { kind: RefusalKind::BadRequest, message: String::from_str(message) }
}

fn unavailable(message: &str) -> (refusal: Refusal)
    ensures
        refusal@ == (RefusalView { kind: RefusalKind::Unavailable, message: message@ }),
{
    Refusal { kind: RefusalKind::Unavailable, message: String::from_str(message) }
}

/// What is answered where an operation identifier stands for something else.
pub open spec fn conflict_refusal(operation_id: Seq<char>) -> RefusalView {
    RefusalView {
        kind: RefusalKind::Conflict,
        message: "conflicting operation_id: "@ + operation_id,
    }
}

/// What is answered where storage or the cluster does not do its part.
pub open spec fn storage_refusal() -> RefusalView {
    RefusalView { kind: RefusalKind::Unavailable, message: "durable storage unavailable"@ }
}

/// What is answered where an operation identifier stands for something else.
pub fn conflict(error: &ConflictError) -> (refusal: Refusal)
    ensures
        refusal@ == conflict_refusal(error.0@),
{
    let mut message: String = String::from_str("conflicting operation_id: ");
    message.append(error.0.as_str());
    Refusal { kind: RefusalKind::Conflict, message }
}

/// What is answered where storage or the cluster does not do its part.
pub fn storage_unavailable() -> (refusal: Refusal)
    ensures
        refusal@ == storage_refusal(),
{
    unavailable("durable storage unavailable")
}

// ---------------------------------------------------------------- what is asked for
/// Why a batch of operations is refused before anything is done: its size, or the
/// first rule that one of its operations breaks.
pub open spec fn batch_complaint(ops: Seq<OperationView>) -> Option<Seq<char>> {
    if ops.len() == 0 || ops.len() > MAX_BATCH {
        Some("batch must contain 1..=10000 operations"@)
    } else {
        first_complaint(ops, ops.len() as int)
    }
}

/// Why a batch of operations is refused before anything is done.
pub fn validate_batch(operations: &[Operation]) -> (result: Result<(), Refusal>)
    ensures
        match result {
            Ok(()) => batch_complaint(operation_views(operations@)) is None,
            Err(refusal) => refusal.kind == RefusalKind::BadRequest && batch_complaint(
                operation_views(operations@),
            ) == Some(refusal.message@),
        },
{
    if operations.len() == 0 || operations.len() > MAX_BATCH {
        return Err(bad_request("batch must contain 1..=10000 operations"));
    }
    let ghost ops = operation_views(operations@);
    let mut at: usize = 0;
    while at < operations.len()
        invariant
            at <= operations@.len() <= MAX_BATCH,
            operations@.len() > 0,
            ops == operation_views(operations@),
            first_complaint(ops, at as int) is None,
        decreases operations@.len() - at,
    {
        assert(ops[at as int] == operations@[at as int]@);
        match validate(&operations[at]) {
            Ok(()) => {},
            Err(refusal) => {
                proof {
                    lemma_complaint_stays(ops, at + 1, ops.len() as int);
                }
                return Err(refusal);
            },
        }
        at = at + 1;
    }
    Ok(())
}

/// Why an operation is refused before anything is done.
pub fn validate(operation: &Operation) -> (result: Result<(), Refusal>)
    ensures
        match result {
            Ok(()) => operation_complaint(operation@) is None,
            Err(refusal) => refusal.kind == RefusalKind::BadRequest && operation_complaint(operation@)
                == Some(refusal.message@),
        },
{
    match operation.validate() {
        Ok(()) => Ok(()),
        Err(reason) => Err(bad_request(reason)),
    }
}

/// Whether a number of identifiers to be read is allowed.
pub fn check_read_batch(count: usize) -> (result: Result<(), Refusal>)
    ensures
        result is Ok <==> 1 <= count <= MAX_BATCH,
        result is Ok <==> read_allowed(count as int),
        result matches Err(refusal) ==> refusal@ == (RefusalView {
            kind: RefusalKind::BadRequest,
            message: "read batch must contain 1..=10000 IDs"@,
        }),
{
    if count == 0 || count > MAX_BATCH {
        return Err(bad_request("read batch must contain 1..=10000 IDs"));
    }
    Ok(())
}

/// Whether every operation that was asked for was found.
pub fn check_found(asked: usize, found: usize) -> (result: Result<(), Refusal>)
    ensures
        result is Ok <==> found == asked,
        result is Ok <==> all_found(asked as int, found as int),
        result matches Err(refusal) ==> refusal@ == (RefusalView {
            kind: RefusalKind::NotFound,
            message: "one or more operations were not found"@,
        }),
{
    if found != asked {
        return Err(
            Refusal {
                kind: RefusalKind::NotFound,
                message: String::from_str("one or more operations were not found"),
            },
        );
    }
    Ok(())
}

/// How many operations a page is to hold.
pub open spec fn page_limit(limit: Option<usize>) -> usize {
    match limit {
        Some(limit) => limit,
        None => DEFAULT_PAGE,
    }
}

/// How many operations a page is to hold, where that is allowed.
pub fn check_limit(limit: Option<usize>) -> (result: Result<usize, Refusal>)
    ensures
        match result {
            Ok(n) => n == page_limit(limit) && 1 <= n <= MAX_PAGE,
            Err(refusal) => !(1 <= page_limit(limit) <= MAX_PAGE) && refusal@ == (RefusalView {
                kind: RefusalKind::BadRequest,
                message: "limit must be 1..=1000"@,
            }),
        },
        result is Ok <==> limit_allowed(page_limit(limit)),
{
    let n: usize = match limit {
        Some(limit) => limit,
        None => DEFAULT_PAGE,
    };
    if n == 0 || n > MAX_PAGE {
        return Err(bad_request("limit must be 1..=1000"));
    }
    Ok(n)
}

/// Whether the history has come as far as the state.
pub fn ensure_history_complete(current: u64, required: u64) -> (result: Result<(), Refusal>)
    ensures
        result is Ok <==> current >= required,
        result is Ok <==> history_reaches(current, required),
        result matches Err(refusal) ==> refusal@ == (RefusalView {
            kind: RefusalKind::Unavailable,
            message: "history index rebuilding: checkpoint "@ + decimal_text(current as nat)
                + ", required "@ + decimal_text(required as nat),
        }),
{
    if current < required {
        let mut message: String = String::from_str("history index rebuilding: checkpoint ");
        append_decimal(&mut message, current);
        message.append(", required ");
        append_decimal(&mut message, required);
        return Err(Refusal { kind: RefusalKind::Unavailable, message });
    }
    Ok(())
}

/// A page of the history, as it is answered.
#[derive(Debug)]
pub struct HistoryPage {
    pub operations: Vec<Operation>,
    /// From where the next page begins; nothing after a page that is not full.
    pub next_cursor: Option<String>,
}

/// The cursor that leads on from a page.
pub open spec fn next_cursor(ops: Seq<OperationView>, limit: nat) -> Option<Seq<char>> {
    if ops.len() == limit {
        Some(ops.last().operation_id)
    } else {
        None
    }
}

/// A page of at most `limit` operations.
pub fn history_page(operations: Vec<Operation>, limit: usize) -> (page: HistoryPage)
    requires
        limit > 0,
    ensures
        page.operations@ == operations@,
        match page.next_cursor {
            Some(cursor) => next_cursor(operation_views(operations@), limit as nat) == Some(cursor@),
            None => next_cursor(operation_views(operations@), limit as nat) is None,
        },
{
    let next_cursor: Option<String> = if operations.len() == limit {
        assert(operation_views(operations@).last() == operations@.last()@);
        Some(operations[operations.len() - 1].operation_id.clone())
    } else {
        None
    };
    HistoryPage { operations, next_cursor }
}

// ---------------------------------------------------------------- totals
/// The sum of the first `n` balances.
pub open spec fn balance_sum(rows: Seq<(String, i64)>, n: int) -> int
    decreases n,
{
    if n <= 0 {
        0
    } else {
        balance_sum(rows, n - 1) + rows[n - 1].1
    }
}

/// Whether every sum on the way through the balances can be held.
pub open spec fn sums_fit(rows: Seq<(String, i64)>) -> bool {
    forall|n: int|
        0 <= n <= rows.len() ==> i64::MIN <= #[trigger] balance_sum(rows, n) <= i64::MAX
}

/// The sum of the balances of an owner; nothing where it cannot be held.
pub fn total_balance(rows: &[(String, i64)]) -> (total: Option<i64>)
    ensures
        match total {
            Some(total) => sums_fit(rows@) && total == balance_sum(rows@, rows@.len() as int),
            None => !sums_fit(rows@),
        },
{
    let mut total: i64 = 0;
    let mut at: usize = 0;
    while at < rows.len()
        invariant
            at <= rows@.len(),
            total == balance_sum(rows@, at as int),
            forall|n: int| 0 <= n <= at ==> i64::MIN <= #[trigger] balance_sum(rows@, n) <= i64::MAX,
        decreases rows@.len() - at,
    {
        match total.checked_add(rows[at].1) {
            Some(sum) => {
                total = sum;
            },
            None => {
                assert(balance_sum(rows@, at + 1) == total + rows@[at as int].1);
                return None;
            },
        }
        at = at + 1;
    }
    Some(total)
}

// ---------------------------------------------------------------- readiness
/// Whether a node is ready. `quorum` says whether the replicated log answers, where
/// there is one; `lease` says whether the node holds the lease, where there is one.
pub fn check_ready(quorum: Option<bool>, lease: Option<bool>) -> (result: Result<(), Refusal>)
    ensures
        result is Ok <==> quorum != Some(false) && lease != Some(false),
        result matches Err(refusal) ==> refusal@ == (RefusalView {
            kind: RefusalKind::Unavailable,
            message: if quorum == Some(false) {
                "replicated quorum unavailable"@
            } else {
                "node does not own the writer lease"@
            },
        }),
        result is Ok <==> is_ready(quorum, lease),
{
    match quorum {
        Some(false) => {
            return Err(unavailable("replicated quorum unavailable"));
        },
        _ => {},
    }
    match lease {
        Some(false) => {
            return Err(unavailable("node does not own the writer lease"));
        },
        _ => {},
    }
    Ok(())
}

/// The epoch under which a node may write. Where there is a lease, `lease` holds the
/// epoch that it is valid for; a node without one writes under epoch zero.
pub fn ensure_writer(lease: Option<Option<u64>>) -> (result: Result<u64, Refusal>)
    ensures
        match lease {
            None => result == Ok::<u64, Refusal>(0),
            Some(Some(epoch)) => result == Ok::<u64, Refusal>(epoch),
            Some(None) => result matches Err(refusal) && refusal@ == (RefusalView {
                kind: RefusalKind::Unavailable,
                message: "node does not own the writer lease"@,
            }),
        },
        match writing_under(lease) {
            Some(epoch) => result == Ok::<u64, Refusal>(epoch),
            None => result is Err,
        },
{
    match lease {
        None => Ok(0),
        Some(Some(epoch)) => Ok(epoch),
        Some(None) => Err(unavailable("node does not own the writer lease")),
    }
}

/// What a node answers to a batch before anything is done for it: the epoch under
/// which it goes on, or a refusal, because the node may not write or else because
/// the batch breaks a rule.
pub fn accept_batch(lease: Option<Option<u64>>, operations: &[Operation]) -> (result: Result<u64, Refusal>)
    ensures
        match lease {
            Some(None) => result matches Err(refusal) && refusal@ == (RefusalView {
                kind: RefusalKind::Unavailable,
                message: "node does not own the writer lease"@,
            }),
            _ => match batch_complaint(operation_views(operations@)) {
                Some(complaint) => result matches Err(refusal) && refusal@ == (RefusalView {
                    kind: RefusalKind::BadRequest,
                    message: complaint,
                }),
                None => result == Ok::<u64, Refusal>(
                    match lease {
                        Some(Some(epoch)) => epoch,
                        _ => 0,
                    },
                ),
            },
        },
        result is Ok <==> writing_under(lease) is Some && batch_complaint(
            operation_views(operations@),
        ) is None,
        result matches Ok(epoch) ==> writing_under(lease) == Some(epoch),
{
    let epoch: u64 = match ensure_writer(lease) {
        Ok(epoch) => epoch,
        Err(refusal) => {
            return Err(refusal);
        },
    };
    match validate_batch(operations) {
        Ok(()) => Ok(epoch),
        Err(refusal) => Err(refusal),
    }
}

// ---------------------------------------------------------------- from reservation to answer
/// What is done next for a batch that is reserved.
#[derive(Clone, Copy, Debug, PartialEq, Eq, Structural)]
pub enum CommitStep {
    /// The new operations are appended to the replicated log.
    Replicate,
    /// The writer lease is looked at again.
    Recheck,
    /// The new operations are written to the local log and applied.
    Apply,
    /// The batch ends: its new operations are committed, and it is answered.
    Commit,
    /// The batch ends: its new operations are forgotten, and it is refused.
    Abort,
}

/// How a step of a batch went.
#[derive(Clone, Copy, Debug, PartialEq, Eq, Structural)]
pub enum CommitReply {
    Done,
    Failed,
    /// The epoch under which the node may write now, if any.
    Writer(Option<u64>),
}

/// What is done first for a batch that is reserved.
pub open spec fn commit_first(any_new: bool) -> CommitStep {
    if any_new {
        CommitStep::Replicate
    } else {
        CommitStep::Apply
    }
}

/// What is done after a step, for a batch that was begun under `epoch`.
pub open spec fn commit_after(step: CommitStep, reply: CommitReply, epoch: u64) -> CommitStep {
    match (step, reply) {
        (CommitStep::Replicate, CommitReply::Done) => CommitStep::Recheck,
        (CommitStep::Recheck, CommitReply::Writer(Some(now))) => if now == epoch {
            CommitStep::Apply
        } else {
            CommitStep::Abort
        },
        (CommitStep::Apply, CommitReply::Done) => CommitStep::Commit,
        _ => CommitStep::Abort,
    }
}

/// What is done first for a batch that is reserved.
pub fn first_commit_step(new: &[bool]) -> (step: CommitStep)
    ensures
        step == commit_first(new@.contains(true)),
{
    let mut at: usize = 0;
    while at < new.len()
        invariant
            at <= new@.len(),
            forall|i: int| 0 <= i < at ==> !#[trigger] new@[i],
        decreases new@.len() - at,
    {
        if new[at] {
            assert(new@[at as int]);
            return CommitStep::Replicate;
        }
        at = at + 1;
    }
    CommitStep::Apply
}

/// What is done after a step, for a batch that was begun under `epoch`.
pub fn next_commit_step(step: CommitStep, reply: CommitReply, epoch: u64) -> (next: CommitStep)
    ensures
        next == commit_after(step, reply, epoch),
{
    match step {
        CommitStep::Replicate => match reply {
            CommitReply::Done => CommitStep::Recheck,
            _ => CommitStep::Abort,
        },
        CommitStep::Recheck => match reply {
            CommitReply::Writer(Some(now)) => if now == epoch {
                CommitStep::Apply
            } else {
                CommitStep::Abort
            },
            _ => CommitStep::Abort,
        },
        CommitStep::Apply => match reply {
            CommitReply::Done => CommitStep::Commit,
            _ => CommitStep::Abort,
        },
        _ => CommitStep::Abort,
    }
}

/// Where a batch comes to by replies to its steps.
pub open spec fn commit_run(any_new: bool, epoch: u64, replies: Seq<CommitReply>) -> CommitStep
    decreases replies.len(),
{
    if replies.len() == 0 {
        commit_first(any_new)
    } else {
        commit_after(commit_run(any_new, epoch, replies.drop_last()), replies.last(), epoch)
    }
}

/// A batch is answered with success only after it was written to the local log and
/// applied; one with new operations, only after they were also appended to the
/// replicated log and the node was still the writer it had been.
pub proof fn law_success_follows_durability(any_new: bool, epoch: u64, replies: Seq<CommitReply>)
    requires
        commit_run(any_new, epoch, replies) is Commit,
    ensures
        any_new ==> replies == seq![
            CommitReply::Done,
            CommitReply::Writer(Some(epoch)),
            CommitReply::Done,
        ],
        !any_new ==> replies == seq![CommitReply::Done],
{
    let a = replies.drop_last();
    assert(commit_run(any_new, epoch, a) is Apply);
    if any_new {
        let b = a.drop_last();
        assert(a.len() > 0);
        assert(commit_run(any_new, epoch, b) is Recheck);
        let c = b.drop_last();
        assert(b.len() > 0);
        assert(commit_run(any_new, epoch, c) is Replicate);
        if c.len() > 0 {
            assert(commit_after(commit_run(any_new, epoch, c.drop_last()), c.last(), epoch)
                !is Replicate);
        }
        assert(c =~= Seq::empty());
        assert(replies =~= seq![
            CommitReply::Done,
            CommitReply::Writer(Some(epoch)),
            CommitReply::Done,
        ]);
    } else {
        if a.len() > 0 {
            let b = a.drop_last();
            assert(commit_run(any_new, epoch, b) is Recheck);
            lemma_no_recheck(epoch, b);
        }
        assert(replies =~= seq![CommitReply::Done]);
    }
}

proof fn lemma_no_recheck(epoch: u64, replies: Seq<CommitReply>)
    ensures
        !(commit_run(false, epoch, replies) is Recheck),
        !(commit_run(false, epoch, replies) is Replicate),
    decreases replies.len(),
{
    if replies.len() > 0 {
        lemma_no_recheck(epoch, replies.drop_last());
    }
}

/// The converse: under every epoch, zero among them, a batch with new operations that
/// were appended, for which the node is still the writer it was, and which were then
/// written and applied, is committed; and so is a batch without new operations that
/// was written and applied.
pub proof fn law_durable_batch_succeeds(epoch: u64)
    ensures
        commit_run(
            true,
            epoch,
            seq![CommitReply::Done, CommitReply::Writer(Some(epoch)), CommitReply::Done],
        ) is Commit,
        commit_run(false, epoch, seq![CommitReply::Done]) is Commit,
{
    lemma_commit_runs(epoch);
}

proof fn lemma_commit_runs(epoch: u64)
    ensures
        commit_run(true, epoch, Seq::empty()) is Replicate,
        commit_run(true, epoch, seq![CommitReply::Done]) is Recheck,
        commit_run(true, epoch, seq![CommitReply::Done, CommitReply::Writer(Some(epoch))]) is Apply,
        commit_run(
            true,
            epoch,
            seq![CommitReply::Done, CommitReply::Writer(Some(epoch)), CommitReply::Done],
        ) is Commit,
        commit_run(false, epoch, Seq::empty()) is Apply,
        commit_run(false, epoch, seq![CommitReply::Done]) is Commit,
{
    let none: Seq<CommitReply> = Seq::empty();
    let one = seq![CommitReply::Done];
    let two = seq![CommitReply::Done, CommitReply::Writer(Some(epoch))];
    let three = seq![CommitReply::Done, CommitReply::Writer(Some(epoch)), CommitReply::Done];
    assert(one.drop_last() =~= none);
    assert(two.drop_last() =~= one);
    assert(three.drop_last() =~= two);
    assert(commit_run(true, epoch, none) is Replicate);
    assert(commit_run(true, epoch, one) is Recheck);
    assert(commit_run(true, epoch, two) is Apply);
}

/// The steps on the way: a batch with new operations is first appended, then the
/// writer is looked at again, then it is applied; one without is applied at once.
pub proof fn law_steps_of_a_batch(epoch: u64)
    ensures
        commit_run(true, epoch, Seq::empty()) is Replicate,
        commit_run(true, epoch, seq![CommitReply::Done]) is Recheck,
        commit_run(true, epoch, seq![CommitReply::Done, CommitReply::Writer(Some(epoch))]) is Apply,
        commit_run(false, epoch, Seq::empty()) is Apply,
{
    lemma_commit_runs(epoch);
}

/// Any other reply on the way ends the batch without success, and so does a writer
/// that has changed.
pub proof fn law_failed_step_ends_the_batch(step: CommitStep, reply: CommitReply, epoch: u64)
    ensures
        reply is Failed ==> commit_after(step, reply, epoch) is Abort,
        step is Replicate || step is Apply ==> (commit_after(step, reply, epoch) !is Abort <==> reply
            == CommitReply::Done),
        step is Recheck ==> (commit_after(step, reply, epoch) !is Abort <==> reply
            == CommitReply::Writer(Some(epoch))),
        step is Abort || step is Commit ==> commit_after(step, reply, epoch) is Abort,
{
}

/// A batch passes exactly where it holds one to ten thousand operations and each of
/// them passes; what is said of one that does not is said of its size, or of its
/// first operation that does not pass.
pub proof fn law_batch_passes_exactly_by_the_rules(ops: Seq<OperationView>)
    ensures
        batch_complaint(ops) is None <==> 1 <= ops.len() <= 10_000 && (forall|i: int|
            0 <= i < ops.len() ==> operation_complaint(#[trigger] ops[i]) is None),
        !(1 <= ops.len() <= 10_000) ==> batch_complaint(ops) == Some(
            "batch must contain 1..=10000 operations"@,
        ),
        forall|k: int|
            1 <= ops.len() <= 10_000 && 0 <= k < ops.len() && operation_complaint(
                #[trigger] ops[k],
            ) is Some && (forall|i: int|
                0 <= i < k ==> operation_complaint(#[trigger] ops[i]) is None) ==> batch_complaint(ops)
                == operation_complaint(ops[k]),
{
    law_first_complaint_is_that_of_the_first_bad_operation(ops, ops.len() as int);
}

/// A refusal for other content names the identifier in full, so that two identifiers
/// are never told of alike.
pub proof fn law_conflict_names_the_identifier(operation_id: Seq<char>)
    ensures
        conflict_refusal(operation_id).kind is Conflict,
        conflict_refusal(operation_id).message.take("conflicting operation_id: "@.len() as int)
            == "conflicting operation_id: "@,
        conflict_refusal(operation_id).message.skip("conflicting operation_id: "@.len() as int)
            == operation_id,
{
    let text = conflict_refusal(operation_id).message;
    assert(text.take("conflicting operation_id: "@.len() as int) =~= "conflicting operation_id: "@);
    assert(text.skip("conflicting operation_id: "@.len() as int) =~= operation_id);
}

/// A page holds as many operations as is asked for, and a hundred where nothing is.
pub proof fn law_page_limit(limit: usize)
    ensures
        page_limit(Some(limit)) == limit,
        page_limit(None) == 100,
{
}

/// The sum of balances grows by each balance, and all sums can be held exactly where
/// none of them leaves the range of 64-bit numbers.
pub proof fn law_sum_of_balances(rows: Seq<(String, i64)>, n: int)
    requires
        0 <= n < rows.len(),
    ensures
        balance_sum(rows, 0) == 0,
        balance_sum(rows, n + 1) - balance_sum(rows, n) == rows[n].1,
        sums_fit(rows) <==> (forall|k: int|
            0 <= k <= rows.len() ==> -0x8000_0000_0000_0000 <= #[trigger] balance_sum(rows, k)
                <= 0x7fff_ffff_ffff_ffff),
{
}

// ---------------------------------------------------------------- how pages are joined
/// The cursor that is handed out with a full page is the identifier of the last
/// operation on it; a page that is not full has none.
pub proof fn law_cursor_names_the_last_operation(ops: Seq<OperationView>, limit: nat)
    requires
        limit > 0,
    ensures
        ops.len() == limit ==> next_cursor(ops, limit) == Some(ops[limit - 1].operation_id),
        ops.len() != limit ==> next_cursor(ops, limit) is None,
{
}

/// The operations of a page that begins after the cursor, read from the entries of an
/// index.
pub open spec fn page_after(
    entries: Seq<(Seq<char>, OperationView)>,
    cursor: Option<Seq<char>>,
    limit: nat,
) -> Seq<OperationView> {
    read_page(new_page(cursor, limit), entries, entries.len() as int).operations
}

/// The operations of at most `pages` pages, the first of them after the cursor and
/// each other one after the cursor that is handed out with the one before.
pub open spec fn joined_pages(
    entries: Seq<(Seq<char>, OperationView)>,
    cursor: Option<Seq<char>>,
    limit: nat,
    pages: nat,
) -> Seq<OperationView>
    decreases pages,
{
    if pages == 0 {
        Seq::empty()
    } else {
        let page = page_after(entries, cursor, limit);
        match next_cursor(page, limit) {
            Some(next) => page + joined_pages(entries, Some(next), limit, (pages - 1) as nat),
            None => page,
        }
    }
}

/// A page that is read with the cursor of a full page holds the entries right after
/// those of that page, and where a page has no cursor it ends with the last entry.
pub proof fn law_cursor_leads_to_the_next_entries(
    entries: Seq<(Seq<char>, OperationView)>,
    start: int,
    limit: nat,
)
    requires
        entries_ordered(entries),
        forall|i: int| 0 <= i < entries.len() ==> (#[trigger] entries[i]).0 == entries[i].1.operation_id,
        0 <= start <= entries.len(),
        limit > 0,
    ensures
        match next_cursor(operations_from(entries, start, limit), limit) {
            Some(cursor) => {
                &&& start + limit <= entries.len()
                &&& page_after(entries, Some(cursor), limit) == operations_from(
                    entries,
                    start + limit,
                    limit,
                )
            },
            None => operations_from(entries, start, limit).len() == entries.len() - start < limit,
        },
{
    if start + limit <= entries.len() {
        let last = start + limit - 1;
        assert(entries[last].0 == entries[last].1.operation_id);
        law_pages_follow_without_gap(entries, last, limit);
    }
}

/// Pages joined by their cursors list every entry of the index exactly once, in its
/// order: with a page more than there are entries, nothing is left out.
pub proof fn law_joined_pages_list_everything_once(
    entries: Seq<(Seq<char>, OperationView)>,
    limit: nat,
    pages: nat,
)
    requires
        entries_ordered(entries),
        forall|i: int| 0 <= i < entries.len() ==> (#[trigger] entries[i]).0 == entries[i].1.operation_id,
        limit > 0,
        pages > entries.len(),
    ensures
        joined_pages(entries, None, limit, pages) == Seq::new(
            entries.len(),
            |i: int| entries[i].1,
        ),
{
    law_first_page_holds_the_first_entries(entries, limit);
    lemma_joined_pages(entries, None, 0, limit, pages);
    assert(operations_from(entries, 0, entries.len()) =~= Seq::new(
        entries.len(),
        |i: int| entries[i].1,
    ));
}

proof fn lemma_joined_pages(
    entries: Seq<(Seq<char>, OperationView)>,
    cursor: Option<Seq<char>>,
    start: int,
    limit: nat,
    pages: nat,
)
    requires
        entries_ordered(entries),
        forall|i: int| 0 <= i < entries.len() ==> (#[trigger] entries[i]).0 == entries[i].1.operation_id,
        limit > 0,
        0 <= start <= entries.len(),
        pages > entries.len() - start,
        page_after(entries, cursor, limit) == operations_from(entries, start, limit),
    ensures
        joined_pages(entries, cursor, limit, pages) == operations_from(
            entries,
            start,
            entries.len(),
        ),
    decreases pages,
{
    let page = operations_from(entries, start, limit);
    let rest = operations_from(entries, start, entries.len());
    law_cursor_leads_to_the_next_entries(entries, start, limit);
    match next_cursor(page, limit) {
        Some(next) => {
            lemma_joined_pages(entries, Some(next), start + limit, limit, (pages - 1) as nat);
            assert(page + operations_from(entries, start + limit, entries.len()) =~= rest);
        },
        None => {
            assert(page =~= rest);
        },
    }
}

/// The HTTP status of a refusal.
pub open spec fn status_of(kind: RefusalKind) -> int {
    match kind {
        RefusalKind::BadRequest => 400,
        RefusalKind::NotFound => 404,
        RefusalKind::Conflict => 409,
        RefusalKind::Unavailable => 503,
    }
}

/// Only what the node itself cannot do at the moment is answered with a status that
/// asks to try again; every other refusal is the fault of the request, and the
/// refusals are told apart by their status.
pub proof fn law_refusals_are_told_apart(a: RefusalKind, b: RefusalKind)
    ensures
        status_of(a) == status_of(b) <==> a == b,
        500 <= status_of(a) < 600 <==> a == RefusalKind::Unavailable,
        400 <= status_of(a) < 500 <==> a != RefusalKind::Unavailable,
        status_of(RefusalKind::BadRequest) == 400,
        status_of(RefusalKind::NotFound) == 404,
        status_of(RefusalKind::Conflict) == 409,
        status_of(RefusalKind::Unavailable) == 503,
{
}

/// The epoch under which a node may write, if it may: there is no lease, or it holds
/// the lease.
pub open spec fn writing_under(lease: Option<Option<u64>>) -> Option<u64> {
    match lease {
        None => Some(0),
        Some(held) => held,
    }
}

/// A node may write exactly where there is no lease or it holds it: under the epoch of
/// the lease, zero among them, and under epoch zero where there is none.
pub proof fn law_writer_holds_the_lease_if_there_is_one(epoch: u64)
    ensures
        writing_under(None) == Some(0u64),
        writing_under(Some(Some(epoch))) == Some(epoch),
        writing_under(Some(None)) is None,
{
}

/// Whether a page may hold as many operations.
pub open spec fn limit_allowed(limit: usize) -> bool {
    0 < limit <= MAX_PAGE
}

/// A page may hold one to a thousand operations.
pub proof fn law_page_holds_up_to_a_thousand(limit: usize)
    ensures
        limit_allowed(limit) <==> 1 <= limit <= 1_000,
        limit_allowed(page_limit(None)),
{
}

/// Whether a node is ready.
pub open spec fn is_ready(quorum: Option<bool>, lease: Option<bool>) -> bool {
    (quorum matches Some(answers) ==> answers) && (lease matches Some(held) ==> held)
}

/// A node that stands alone is always ready; one of a cluster exactly where the
/// replicated log answers and it holds the lease, as far as there is one.
pub proof fn law_node_is_ready_where_nothing_is_missing(answers: bool, held: bool)
    ensures
        is_ready(None, None),
        is_ready(Some(answers), None) <==> answers,
        is_ready(None, Some(held)) <==> held,
        is_ready(Some(answers), Some(held)) <==> answers && held,
{
}

/// A refusal says its kind and its message.
pub proof fn law_refusal_says_its_fields(refusal: Refusal)
    ensures
        refusal@.kind == refusal.kind,
        refusal@.message == refusal.message@,
{
}

/// Whether as many identifiers may be read at once.
pub open spec fn read_allowed(count: int) -> bool {
    0 < count <= MAX_BATCH
}

/// Whether everything that was asked for was found.
pub open spec fn all_found(asked: int, found: int) -> bool {
    asked - found == 0
}

/// Whether the history has come as far as is required.
pub open spec fn history_reaches(current: u64, required: u64) -> bool {
    required <= current
}

/// As many identifiers may be read at once as operations may be sent, one to ten
/// thousand; and a read succeeds only where none of them is missing.
pub proof fn law_reads_are_whole(count: int, ops: Seq<OperationView>, found: int)
    ensures
        read_allowed(count) <==> 1 <= count <= 10_000,
        batch_complaint(ops) is None ==> read_allowed(ops.len() as int),
        all_found(count, found) <==> found == count,
{
}

/// The history answers from the moment it has come as far as the state, and goes on
/// answering: what is reached stays reached, and a state that is less far is reached too.
pub proof fn law_history_answers_once_it_has_caught_up(current: u64, required: u64, more: u64)
    ensures
        history_reaches(required, required),
        current < required ==> !history_reaches(current, required),
        history_reaches(current, required) && more >= current ==> history_reaches(more, required),
        history_reaches(current, required) && more <= required ==> history_reaches(current, more),
{
}

} // verus!
