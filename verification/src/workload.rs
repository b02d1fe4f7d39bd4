//! The workloads that a node is measured with: which operations they are made of,
//! in what order they are sent, when they are sent again, and what is reported.

use vstd::prelude::*;
use vstd::string::StringExecFns;

use crate::model::{operation_views, Operation, OperationView};
use crate::text::{append_decimal, decimal_text};

verus! {

// ---------------------------------------------------------------- operations
/// Operation `index` of a run.
pub open spec fn load_op(run_id: Seq<char>, index: nat, owners: nat, skus: nat) -> OperationView {
    OperationView {
        operation_id: run_id + "-"@ + decimal_text(index),
        owner_id: "owner-"@ + decimal_text(index % owners),
        sku: "sku-"@ + decimal_text(index % skus),
        delta: 1,
        event_version: 1,
    }
}

/// Operation `index` of a run.
pub fn load_operation(run_id: &str, index: usize, owners: usize, skus: usize) -> (operation: Operation)
    requires
        owners > 0,
        skus > 0,
    ensures
        operation@ == load_op(run_id@, index as nat, owners as nat, skus as nat),
{
    let mut operation_id: String = String::from_str(run_id);
    operation_id.append("-");
    append_decimal(&mut operation_id, index as u64);
    let mut owner_id: String = String::from_str("owner-");
    append_decimal(&mut owner_id, (index % owners) as u64);
    let mut sku: String = String::from_str("sku-");
    append_decimal(&mut sku, (index % skus) as u64);
    Operation { operation_id, owner_id, sku, delta: 1, event_version: 1 }
}

/// Where the batch that begins at `start` ends.
pub open spec fn end_of_batch(start: nat, batch_size: nat, total: nat) -> nat {
    if start + batch_size < total {
        start + batch_size
    } else {
        total
    }
}

/// Where the batch that begins at `start` ends.
pub fn batch_end(start: usize, batch_size: usize, total: usize) -> (end: usize)
    requires
        start <= total,
    ensures
        end == end_of_batch(start as nat, batch_size as nat, total as nat),
        start <= end <= total,
{
    if batch_size < total - start {
        start + batch_size
    } else {
        total
    }
}

/// The operations of a batch of a run.
pub fn load_batch(run_id: &str, start: usize, end: usize, owners: usize, skus: usize) -> (operations:
    Vec<Operation>)
    requires
        start <= end,
        owners > 0,
        skus > 0,
    ensures
        operation_views(operations@) == Seq::new(
            (end - start) as nat,
            |i: int| load_op(run_id@, (start + i) as nat, owners as nat, skus as nat),
        ),
{
    let mut operations: Vec<Operation> = Vec::new();
    let mut index: usize = start;
    assert(operation_views(operations@) =~= Seq::new(
        0,
        |i: int| load_op(run_id@, (start + i) as nat, owners as nat, skus as nat),
    ));
    while index < end
        invariant
            start <= index <= end,
            owners > 0,
            skus > 0,
            operation_views(operations@) == Seq::new(
                (index - start) as nat,
                |i: int| load_op(run_id@, (start + i) as nat, owners as nat, skus as nat),
            ),
        decreases end - index,
    {
        let ghost before = operations@;
        operations.push(load_operation(run_id, index, owners, skus));
        assert(operation_views(operations@) =~= operation_views(before).push(
            load_op(run_id@, index as nat, owners as nat, skus as nat),
        ));
        index = index + 1;
        assert(operation_views(operations@) =~= Seq::new(
            (index - start) as nat,
            |i: int| load_op(run_id@, (start + i) as nat, owners as nat, skus as nat),
        ));
    }
    operations
}

/// An operation identifier under which an operation of a data set is sent in a run.
pub fn renamed_id(run_id: &str, operation_id: &str) -> (id: String)
    ensures
        id@ == run_id@ + "-"@ + operation_id@,
{
    let mut id: String = String::from_str(run_id);
    id.append("-");
    id.append(operation_id);
    id
}

// ---------------------------------------------------------------- mixed workloads
/// How many of `total` operations are written and how many are read: one in five
/// is written.
pub fn mixed_targets(total: usize) -> (targets: (usize, usize))
    ensures
        targets.0 == total / 5,
        targets.0 + targets.1 == total,
        (targets.0 as int, targets.1 as int) == writes_and_reads(total as int),
{
    let writes: usize = total / 5;
    (writes, total - writes)
}

/// How many of the next `count` operations are still to be taken, where `done` of
/// `target` are taken.
pub fn still_wanted(done: usize, count: usize, target: usize) -> (wanted: usize)
    ensures
        wanted == if done >= target {
            0
        } else if done + count > target {
            target - done
        } else {
            count as int
        },
        wanted == wanted_of(done as int, count as int, target as int),
{
    if done >= target {
        0
    } else if count > target - done {
        target - done
    } else {
        count
    }
}

/// The order of reads and writes: four reads and a write in turn, and what is left
/// of either at the end. A write is `true`.
pub open spec fn mixed_order(reads: nat, writes: nat) -> Seq<bool>
    decreases reads + writes,
{
    if reads == 0 && writes == 0 {
        Seq::empty()
    } else {
        let taken = if reads < 4 {
            reads
        } else {
            4
        };
        let written = if writes == 0 {
            0nat
        } else {
            1nat
        };
        Seq::new(taken, |i: int| false) + Seq::new(written, |i: int| true) + mixed_order(
            (reads - taken) as nat,
            (writes - written) as nat,
        )
    }
}

/// The order of reads and writes.
pub fn schedule(reads: usize, writes: usize) -> (order: Vec<bool>)
    ensures
        order@ == mixed_order(reads as nat, writes as nat),
{
    let mut order: Vec<bool> = Vec::new();
    let mut reads_left: usize = reads;
    let mut writes_left: usize = writes;
    assert(order@ + mixed_order(reads as nat, writes as nat) =~= mixed_order(
        reads as nat,
        writes as nat,
    ));
    while reads_left > 0 || writes_left > 0
        invariant
            order@ + mixed_order(reads_left as nat, writes_left as nat) == mixed_order(
                reads as nat,
                writes as nat,
            ),
        decreases reads_left + writes_left,
    {
        let ghost before = order@;
        let taken: usize = if reads_left < 4 {
            reads_left
        } else {
            4
        };
        let mut at: usize = 0;
        while at < taken
            invariant
                at <= taken,
                order@ == before + Seq::new(at as nat, |i: int| false),
            decreases taken - at,
        {
            order.push(false);
            at = at + 1;
            assert(order@ =~= before + Seq::new(at as nat, |i: int| false));
        }
        let written: usize = if writes_left == 0 {
            0
        } else {
            1
        };
        if writes_left > 0 {
            order.push(true);
        }
        proof {
            assert(order@ =~= before + (Seq::new(taken as nat, |i: int| false) + Seq::new(
                written as nat,
                |i: int| true,
            )));
            let rest = mixed_order(
                (reads_left - taken) as nat,
                (writes_left - written) as nat,
            );
            assert(order@ + rest =~= before + (Seq::new(taken as nat, |i: int| false) + Seq::new(
                written as nat,
                |i: int| true,
            ) + rest));
        }
        reads_left = reads_left - taken;
        writes_left = writes_left - written;
    }
    assert(order@ + mixed_order(0, 0) =~= order@);
    order
}

/// How often `value` occurs in an order.
pub open spec fn occurrences(order: Seq<bool>, value: bool) -> nat
    decreases order.len(),
{
    if order.len() == 0 {
        0
    } else {
        occurrences(order.drop_last(), value) + if order.last() == value {
            1nat
        } else {
            0nat
        }
    }
}

proof fn lemma_occurrences_concat(a: Seq<bool>, b: Seq<bool>, value: bool)
    ensures
        occurrences(a + b, value) == occurrences(a, value) + occurrences(b, value),
    decreases b.len(),
{
    if b.len() == 0 {
        assert(a + b =~= a);
    } else {
        assert((a + b).drop_last() =~= a + b.drop_last());
        assert((a + b).last() == b.last());
        lemma_occurrences_concat(a, b.drop_last(), value);
    }
}

proof fn lemma_occurrences_same(n: nat, held: bool, value: bool)
    ensures
        occurrences(Seq::new(n, |i: int| held), value) == if held == value {
            n
        } else {
            0
        },
    decreases n,
{
    if n > 0 {
        let all = Seq::new(n, |i: int| held);
        assert(all.drop_last() =~= Seq::new((n - 1) as nat, |i: int| held));
        lemma_occurrences_same((n - 1) as nat, held, value);
    }
}

/// A mixed workload sends every read and every write, and each of them once.
pub proof fn law_schedule_sends_everything_once(reads: nat, writes: nat)
    ensures
        occurrences(mixed_order(reads, writes), false) == reads,
        occurrences(mixed_order(reads, writes), true) == writes,
    decreases reads + writes,
{
    if reads > 0 || writes > 0 {
        let taken = if reads < 4 {
            reads
        } else {
            4
        };
        let written = if writes == 0 {
            0nat
        } else {
            1nat
        };
        let a = Seq::new(taken, |i: int| false);
        let b = Seq::new(written, |i: int| true);
        let c = mixed_order((reads - taken) as nat, (writes - written) as nat);
        law_schedule_sends_everything_once((reads - taken) as nat, (writes - written) as nat);
        lemma_occurrences_same(taken, false, false);
        lemma_occurrences_same(taken, false, true);
        lemma_occurrences_same(written, true, false);
        lemma_occurrences_same(written, true, true);
        lemma_occurrences_concat(a, b, false);
        lemma_occurrences_concat(a, b, true);
        lemma_occurrences_concat(a + b, c, false);
        lemma_occurrences_concat(a + b, c, true);
    }
}

// ---------------------------------------------------------------- sending again
/// What becomes of a request after it was sent.
#[derive(Clone, Copy, Debug, PartialEq, Eq, Structural)]
pub enum Resend {
    /// The request succeeded.
    Done,
    /// The request is sent again.
    Again,
    /// The request failed.
    Fail,
}

/// What becomes of a request that was sent again `retries` times, where at most
/// `max_retries` are allowed. `status` is the HTTP status of the response, if one
/// came: a success ends the request, and what is neither a success nor a fault of
/// the server fails it.
pub fn after_response(status: Option<u16>, retries: usize, max_retries: usize) -> (result: Resend)
    ensures
        result == (match status {
            Some(code) => if 200 <= code < 300 {
                Resend::Done
            } else if !(500 <= code < 600) {
                Resend::Fail
            } else if retries < max_retries {
                Resend::Again
            } else {
                Resend::Fail
            },
            None => if retries < max_retries {
                Resend::Again
            } else {
                Resend::Fail
            },
        }),
        result == resend_after(status, retries as int, max_retries as int),
{
    match status {
        Some(code) => {
            if 200 <= code && code < 300 {
                return Resend::Done;
            }
            if code < 500 || code >= 600 {
                return Resend::Fail;
            }
        },
        None => {},
    }
    if retries < max_retries {
        Resend::Again
    } else {
        Resend::Fail
    }
}

/// Whether a response says that a gateway or the service is out for a while.
pub fn is_transient(status: u16) -> (result: bool)
    ensures
        result == (status == 502 || status == 503 || status == 504),
        result == may_pass(status as int),
{
    status == 502 || status == 503 || status == 504
}

/// How long to wait before attempt `attempt + 1`, in milliseconds: twice as long
/// each time, up to a limit.
pub fn retry_delay_ms(attempt: u32) -> (delay: u64)
    ensures
        delay == (if attempt == 0 {
            25u64
        } else if attempt == 1 {
            50u64
        } else if attempt == 2 {
            100u64
        } else if attempt == 3 {
            200u64
        } else {
            400u64
        }),
        delay == delay_after(attempt as nat),
{
    proof {
        lemma_delays();
    }
    if attempt == 0 {
        25
    } else if attempt == 1 {
        50
    } else if attempt == 2 {
        100
    } else if attempt == 3 {
        200
    } else {
        400
    }
}

/// How long to wait before a page is asked for again, in milliseconds.
pub fn page_delay_ms(attempt: u32) -> (delay: u64)
    requires
        attempt <= 6,
    ensures
        delay == 25 * vstd::arithmetic::power2::pow2(attempt as nat),
{
    proof {
        vstd::arithmetic::power2::lemma2_to64();
    }
    let mut delay: u64 = 25;
    let mut at: u32 = 0;
    while at < attempt
        invariant
            at <= attempt <= 6,
            delay == 25 * vstd::arithmetic::power2::pow2(at as nat),
            delay <= 1600,
        decreases attempt - at,
    {
        proof {
            vstd::arithmetic::power2::lemma2_to64();
            vstd::arithmetic::power2::lemma_pow2_unfold((at + 1) as nat);
        }
        delay = delay * 2;
        at = at + 1;
    }
    delay
}

// ---------------------------------------------------------------- reports
/// Where a percentile stands among `len` ordered values.
pub open spec fn percentile_index(len: nat, p: nat) -> int {
    (len - 1) * p / 100
}

/// A percentile of ordered values; zero where there are none. It must stand among
/// the values: one of at most a hundred always does.
pub fn pct(values: &[u64], p: usize) -> (value: u64)
    requires
        values@.len() == 0 || percentile_index(values@.len(), p as nat) < values@.len(),
    ensures
        value == if values@.len() == 0 {
            0
        } else {
            values@[percentile_index(values@.len(), p as nat)]
        },
{
    if values.len() == 0 {
        return 0;
    }
    let last: u128 = values.len() as u128 - 1;
    assert(0 <= last * p <= 0xffff_ffff_ffff_ffff * 0xffff_ffff_ffff_ffff) by (nonlinear_arith)
        requires
            0 <= last <= 0xffff_ffff_ffff_ffff,
            0 <= p <= 0xffff_ffff_ffff_ffff,
    ;
    let index: u128 = last * (p as u128) / 100;
    values[index as usize]
}

// ---------------------------------------------------------------- laws
/// What is done after a reply to a request that was sent again `retries` times.
pub open spec fn resend_after(status: Option<u16>, retries: int, max_retries: int) -> Resend {
    if status matches Some(code) && 200 <= code < 300 {
        Resend::Done
    } else if retries < max_retries && (status matches Some(code) ==> 500 <= code < 600) {
        Resend::Again
    } else {
        Resend::Fail
    }
}

/// A request that succeeded is never sent again. One that failed on the side of the
/// node, or was not answered, is sent again as long as that is allowed, and fails
/// after that; one that was refused fails at once.
pub proof fn law_only_failures_of_the_node_are_sent_again(
    code: u16,
    retries: int,
    max_retries: int,
)
    ensures
        resend_after(Some(code), retries, max_retries) is Done <==> 200 <= code <= 299,
        resend_after(Some(code), retries, max_retries) is Again <==> 500 <= code <= 599 && retries
            < max_retries,
        resend_after(Some(code), retries, max_retries) is Fail <==> !(200 <= code <= 299) && !(500
            <= code <= 599 && retries < max_retries),
        resend_after(None, retries, max_retries) is Again <==> retries < max_retries,
        resend_after(None, retries, max_retries) is Fail <==> retries >= max_retries,
{
}

/// How long the wait is before a request is sent again, in milliseconds.
pub open spec fn delay_after(attempt: nat) -> int {
    if attempt >= 4 {
        400
    } else {
        25 * vstd::arithmetic::power2::pow2(attempt) as int
    }
}

/// The wait doubles with each attempt, from 25 up to 400 milliseconds, and no further.
pub proof fn law_wait_doubles_up_to_a_limit(attempt: nat)
    ensures
        delay_after(0) == 25,
        attempt < 4 ==> delay_after(attempt + 1) == 2 * delay_after(attempt),
        attempt >= 4 ==> delay_after(attempt) == 400,
{
    lemma_delays();
}

proof fn lemma_delays()
    ensures
        delay_after(0) == 25,
        delay_after(1) == 50,
        delay_after(2) == 100,
        delay_after(3) == 200,
        delay_after(4) == 400,
{
    vstd::arithmetic::power2::lemma2_to64();
}

/// How many of `count` more are wanted where `done` are done of `target`.
pub open spec fn wanted_of(done: int, count: int, target: int) -> int {
    let left = if done < target {
        target - done
    } else {
        0
    };
    if count < left {
        count
    } else {
        left
    }
}

/// No more are wanted than are offered, nor than are left; and all that are left or
/// all that are offered are wanted.
pub proof fn law_no_more_than_the_target(done: int, count: int, target: int)
    requires
        0 <= count,
    ensures
        0 <= wanted_of(done, count, target) <= count,
        done >= target ==> wanted_of(done, count, target) == 0,
        done < target ==> done + wanted_of(done, count, target) <= target,
        done < target ==> wanted_of(done, count, target) == count || done + wanted_of(
            done,
            count,
            target,
        ) == target,
{
}

/// An operation of a load has an identifier of its own within the run; owners and
/// stock-keeping units take turns; and it always adds one.
pub proof fn law_load_goes_round(run_id: Seq<char>, index: nat, owners: nat, skus: nat)
    requires
        owners > 0,
        skus > 0,
    ensures
        ({
            let op = load_op(run_id, index, owners, skus);
            &&& op.operation_id == run_id + "-"@ + decimal_text(index)
            &&& op.owner_id == "owner-"@ + decimal_text(index % owners)
            &&& op.sku == "sku-"@ + decimal_text(index % skus)
            &&& op.delta == 1
            &&& op.event_version == 1
            &&& load_op(run_id, index + owners, owners, skus).owner_id == op.owner_id
            &&& load_op(run_id, index + skus, owners, skus).sku == op.sku
        }),
{
    vstd::arithmetic::div_mod::lemma_mod_add_multiples_vanish(index as int, owners as int);
    vstd::arithmetic::div_mod::lemma_mod_add_multiples_vanish(index as int, skus as int);
}

/// A batch is as large as it may be, unless the operations end before.
pub proof fn law_batch_is_full_or_the_last(start: nat, batch_size: nat, total: nat)
    requires
        start <= total,
    ensures
        start <= end_of_batch(start, batch_size, total) <= total,
        end_of_batch(start, batch_size, total) - start <= batch_size,
        end_of_batch(start, batch_size, total) == total || end_of_batch(start, batch_size, total)
            - start == batch_size,
{
}

/// Four reads are sent before each write, as long as there are as many; when the one
/// kind runs out, the other is sent by itself.
pub proof fn law_four_reads_before_a_write(reads: nat, writes: nat)
    ensures
        mixed_order(0, 0).len() == 0,
        mixed_order(reads + 4, writes + 1) == seq![false, false, false, false, true] + mixed_order(
            reads,
            writes,
        ),
        reads < 4 ==> mixed_order(reads, writes + 1) == Seq::new(reads, |i: int| false) + seq![true]
            + mixed_order(0, writes),
        mixed_order(0, writes + 1) == seq![true] + mixed_order(0, writes),
        mixed_order(reads, 0) == Seq::new(reads, |i: int| false),
    decreases reads,
{
    let five = seq![false, false, false, false, true];
    assert(mixed_order(reads + 4, writes + 1) =~= five + mixed_order(reads, writes)) by {
        assert(Seq::new(4, |i: int| false) + Seq::new(1, |i: int| true) =~= five);
    }
    assert(Seq::new(1, |i: int| true) =~= seq![true]);
    assert(mixed_order(0, writes + 1) =~= seq![true] + mixed_order(0, writes)) by {
        assert(Seq::new(0, |i: int| false) + Seq::new(1, |i: int| true) =~= seq![true]);
    }
    if reads < 4 {
        assert(mixed_order(reads, writes + 1) =~= Seq::new(reads, |i: int| false) + seq![true]
            + mixed_order(0, writes));
    }
    if reads > 0 {
        let taken: nat = if reads < 4 {
            reads
        } else {
            4
        };
        law_four_reads_before_a_write((reads - taken) as nat, 0);
        assert(mixed_order(reads, 0) =~= Seq::new(reads, |i: int| false));
    } else {
        assert(mixed_order(reads, 0) =~= Seq::new(reads, |i: int| false));
    }
}

/// The value that is reported for a percentage lies at that part of the way from the
/// first value to the last, rounded down.
pub proof fn law_percentile_lies_on_the_way(len: nat, p: nat)
    requires
        len > 0,
    ensures
        100 * percentile_index(len, p) <= (len - 1) * p < 100 * percentile_index(len, p) + 100,
        percentile_index(len, 0) == 0,
        percentile_index(len, 100) == len - 1,
{
}

/// Whether a status says of a failure that it may pass by itself.
pub open spec fn may_pass(status: int) -> bool {
    502 <= status <= 504
}

/// Failures of the way to the node, of the node for now, and of time may pass; no other
/// status says so.
pub proof fn law_passing_failures(status: int)
    ensures
        may_pass(status) <==> status == 502 || status == 503 || status == 504,
        may_pass(status) ==> 500 <= status < 600,
{
}

/// How many of the operations of a mixed load are writes, and how many reads.
pub open spec fn writes_and_reads(total: int) -> (int, int) {
    (total / 5, total - total / 5)
}

/// One in five operations of a mixed load is a write, rounded down, and every other one
/// is a read.
pub proof fn law_one_in_five_is_a_write(total: int)
    requires
        0 <= total,
    ensures
        ({
            let (writes, reads) = writes_and_reads(total);
            &&& writes + reads == total
            &&& 5 * writes <= total < 5 * writes + 5
        }),
{
}

} // verus!
