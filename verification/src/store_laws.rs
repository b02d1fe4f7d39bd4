//! What holds of a warehouse over several calls: a delivery that comes again
//! changes nothing, and a restart brings back what was applied.

use vstd::prelude::*;

use crate::balances::{
    add_ops, balance_of, law_balance_is_the_sum_of_changes, op_key, ops_addable, total,
};
use crate::dedup::{
    batch_keys, finished, flagged, is_first, lemma_visit_order, preflight, visit_order, DedupEntry,
    PreflightView,
};
use crate::dedup_laws::{
    contradicts, key_at, key_before, keys_tell_apart, known, known_at, law_commit_makes_the_batch_known,
    law_committed_batch_is_known, law_known_operations_are_duplicates,
    law_lone_batch_is_refused_exactly_for_other_content, law_new_means_unknown, law_ready_batch_is_reserved,
    looked_up, nothing_pending,
};
use crate::digest::{id_key, law_digests_stand_for_operations, op_fingerprint, told_apart};
use crate::model::{ApplyResultView, ApplyStatus, OperationView};
use crate::recovery::{
    distinct, distinct_ops, entry_map, has_key, is_handed_over, law_restart_hands_everything_to_the_disk,
    lemma_distinct_prefix, op_entries, recovered_balances, restart_batches, snapshot_map,
};
use crate::snapshot::{BalanceView, SnapshotView};
use crate::state::{
    answered, entry_key, flagged_total, lemma_flagged_total, lemma_lists, lists, new_ops, selected,
};

verus! {

/// Flags that say of no operation that it is new.
pub open spec fn nothing_new(ops: Seq<OperationView>) -> Seq<bool> {
    Seq::new(ops.len(), |i: int| false)
}

proof fn lemma_none_selected(ops: Seq<OperationView>, n: int)
    requires
        0 <= n <= ops.len(),
    ensures
        selected(ops, nothing_new(ops), n) == Seq::<OperationView>::empty(),
    decreases n,
{
    if n > 0 {
        lemma_none_selected(ops, n - 1);
    }
}

/// A batch without a new operation leaves the balances and the index as they are,
/// hands nothing to the disk, and is answered with the published balances.
pub proof fn law_batch_without_news_changes_nothing(
    balances: Map<(Seq<char>, Seq<char>), i64>,
    published: Map<(Seq<char>, Seq<char>), i64>,
    dedup: Map<[u8; 32], DedupEntry>,
    ops: Seq<OperationView>,
    committed: bool,
)
    ensures
        add_ops(balances, new_ops(ops, nothing_new(ops))) == balances,
        finished(dedup, ops, nothing_new(ops), committed).memory == dedup,
        finished(dedup, ops, nothing_new(ops), committed).disk.len() == 0,
        forall|i: int|
            0 <= i < ops.len() ==> #[trigger] answered(
                balances,
                published,
                ops,
                nothing_new(ops),
                i,
            ) == (ApplyResultView {
                operation_id: ops[i].operation_id,
                status: ApplyStatus::Duplicate,
                balance: balance_of(published, op_key(ops[i])),
            }),
{
    let new = nothing_new(ops);
    lemma_none_selected(ops, ops.len() as int);
    let n = flagged(ops, new);
    let keys = batch_keys(ops.take(n));
    let order = visit_order(keys, new.take(n));
    lemma_visit_order(keys, new.take(n));
    if order.len() > 0 {
        assert(order.contains(order[0]));
    }
}

/// A batch that was committed and comes again is answered with duplicates: the
/// index stays as it is, nothing is new, and so no balance changes.
pub proof fn law_redelivery_changes_nothing(
    balances: Map<(Seq<char>, Seq<char>), i64>,
    dedup: Map<[u8; 32], DedupEntry>,
    disk: Map<[u8; 32], [u8; 32]>,
    ops: Seq<OperationView>,
    reservation: u64,
    later: u64,
)
    ensures
        ({
            let (reserved, answer) = preflight(dedup, ops, looked_up(ops, disk), reservation);
            answer matches PreflightView::Ready(new) ==> {
                let after = finished(reserved, ops, new, true).memory;
                &&& preflight(after, ops, looked_up(ops, disk), later) == (
                    after,
                    PreflightView::Ready(nothing_new(ops)),
                )
                &&& add_ops(balances, new_ops(ops, nothing_new(ops))) == balances
            }
        }),
{
    let (reserved, answer) = preflight(dedup, ops, looked_up(ops, disk), reservation);
    law_batch_without_news_changes_nothing(balances, balances, dedup, ops, true);
    if let PreflightView::Ready(new) = answer {
        law_ready_batch_is_reserved(dedup, disk, ops, reservation);
        law_committed_batch_is_known(reserved, disk, ops, new, reservation);
        let after = finished(reserved, ops, new, true).memory;
        law_known_operations_are_duplicates(after, disk, ops, later);
    }
}

/// A restart from a snapshot alone brings back the balances it was taken of.
pub proof fn law_snapshot_brings_back_balances(
    snapshot: SnapshotView,
    balances: Map<(Seq<char>, Seq<char>), i64>,
)
    requires
        lists(snapshot.balances, balances),
    ensures
        recovered_balances(Some(snapshot), Seq::empty()) == balances,
{
    lemma_lists(snapshot.balances, balances);
}

/// Whether no two operations have the same deduplication key.
pub open spec fn distinct_ids(ops: Seq<OperationView>) -> bool {
    forall|i: int, j: int|
        0 <= i < j < ops.len() ==> id_key((#[trigger] ops[i]).operation_id) != id_key(
            (#[trigger] ops[j]).operation_id,
        )
}

proof fn lemma_all_distinct(ops: Seq<OperationView>, n: int)
    requires
        distinct_ids(ops),
        0 <= n <= ops.len(),
    ensures
        distinct(ops, n) == ops.take(n),
    decreases n,
{
    if n > 0 {
        lemma_all_distinct(ops, n - 1);
        if has_key(ops, n - 1, id_key(ops[n - 1].operation_id)) {
            let j = choose|j: int|
                0 <= j < n - 1 && id_key((#[trigger] ops[j]).operation_id) == id_key(
                    ops[n - 1].operation_id,
                );
            assert(id_key(ops[j].operation_id) != id_key(ops[n - 1].operation_id));
        }
        assert(ops.take(n - 1).push(ops[n - 1]) =~= ops.take(n));
    } else {
        assert(ops.take(0) =~= Seq::empty());
    }
}

/// A restart from a snapshot and the log of the operations applied since brings
/// back the balances after those operations.
pub proof fn law_restart_brings_back_applied_operations(
    snapshot: SnapshotView,
    balances: Map<(Seq<char>, Seq<char>), i64>,
    log: Seq<OperationView>,
)
    requires
        lists(snapshot.balances, balances),
        distinct_ids(log),
    ensures
        recovered_balances(Some(snapshot), log) == add_ops(balances, log),
{
    lemma_lists(snapshot.balances, balances);
    lemma_all_distinct(log, log.len() as int);
    assert(log.take(log.len() as int) =~= log);
}

/// Whether the disk holds everything that a restart handed to it.
pub open spec fn disk_holds(
    disk: Map<[u8; 32], [u8; 32]>,
    batches: Seq<Seq<([u8; 32], [u8; 32])>>,
) -> bool {
    forall|entry: ([u8; 32], [u8; 32])| #[trigger]
        is_handed_over(batches, entry) ==> disk.get(entry.0) == Some(entry.1)
}

/// A node that was started again knows the operations of its log: when they come
/// again from the replicated log, they are duplicates.
pub proof fn law_restarted_node_knows_its_log(
    snapshot: Option<SnapshotView>,
    recovered: Seq<OperationView>,
    disk: Map<[u8; 32], [u8; 32]>,
    reservation: u64,
)
    requires
        disk_holds(disk, restart_batches(snapshot, recovered)),
    ensures
        preflight(
            Map::empty(),
            distinct_ops(recovered),
            looked_up(distinct_ops(recovered), disk),
            reservation,
        ) == (
            Map::<[u8; 32], DedupEntry>::empty(),
            PreflightView::Ready(nothing_new(distinct_ops(recovered))),
        ),
{
    let ops = distinct_ops(recovered);
    let memory = Map::<[u8; 32], DedupEntry>::empty();
    assert forall|i: int| 0 <= i < ops.len() implies #[trigger] known_at(memory, disk, ops, i) by {
        let entry = op_entries(ops)[i];
        assert(op_entries(ops).contains(entry));
        law_restart_hands_everything_to_the_disk(snapshot, recovered, entry);
        assert(is_handed_over(restart_batches(snapshot, recovered), entry));
    }
    law_known_operations_are_duplicates(memory, disk, ops, reservation);
}

// ---------------------------------------------------------------- many deliveries
/// What deliveries have come to.
pub ghost struct Delivered {
    pub memory: Map<[u8; 32], DedupEntry>,
    /// The operations of the batches that were taken, one after another.
    pub taken: Seq<OperationView>,
    /// The operations that were applied, one after another.
    pub applied: Seq<OperationView>,
}

/// Deliveries after one more batch: it is taken and its new operations are
/// applied, or it changes nothing.
pub open spec fn deliver_one(
    state: Delivered,
    disk: Map<[u8; 32], [u8; 32]>,
    ops: Seq<OperationView>,
    reservation: u64,
) -> Delivered {
    let (reserved, answer) = preflight(state.memory, ops, looked_up(ops, disk), reservation);
    match answer {
        PreflightView::Ready(new) => Delivered {
            memory: finished(reserved, ops, new, true).memory,
            taken: state.taken + ops,
            applied: state.applied + new_ops(ops, new),
        },
        _ => state,
    }
}

/// Deliveries of batches, each with its reservation, to a node that knows what
/// `memory` and `disk` hold.
pub open spec fn deliver_all(
    memory: Map<[u8; 32], DedupEntry>,
    disk: Map<[u8; 32], [u8; 32]>,
    batches: Seq<(Seq<OperationView>, u64)>,
) -> Delivered
    decreases batches.len(),
{
    if batches.len() == 0 {
        Delivered { memory, taken: Seq::empty(), applied: Seq::empty() }
    } else {
        deliver_one(
            deliver_all(memory, disk, batches.drop_last()),
            disk,
            batches.last().0,
            batches.last().1,
        )
    }
}

/// Whether exactly the operations in `prior` are known.
pub open spec fn knows_exactly(
    memory: Map<[u8; 32], DedupEntry>,
    disk: Map<[u8; 32], [u8; 32]>,
    prior: Seq<OperationView>,
) -> bool {
    forall|key: [u8; 32]| #[trigger]
        known(memory, disk, key) is Some <==> has_key(prior, prior.len() as int, key)
}

proof fn lemma_has_key_concat(base: Seq<OperationView>, ops: Seq<OperationView>, i: int, key: [u8; 32])
    requires
        0 <= i <= ops.len(),
    ensures
        has_key(base + ops, base.len() + i, key) <==> has_key(base, base.len() as int, key)
            || key_before(ops, i, key),
{
    let all = base + ops;
    if has_key(base, base.len() as int, key) {
        let j = choose|j: int| 0 <= j < base.len() && id_key((#[trigger] base[j]).operation_id) == key;
        assert(id_key(all[j].operation_id) == key);
    }
    if key_before(ops, i, key) {
        let j = choose|j: int| 0 <= j < i && #[trigger] key_at(ops, j) == key;
        assert(id_key(all[base.len() + j].operation_id) == key);
    }
    if has_key(all, base.len() + i, key) {
        let j = choose|j: int|
            0 <= j < base.len() + i && id_key((#[trigger] all[j]).operation_id) == key;
        if j < base.len() {
            assert(id_key(base[j].operation_id) == key);
        } else {
            assert(key_at(ops, j - base.len()) == key);
        }
    }
}

proof fn lemma_new_is_distinct(
    memory: Map<[u8; 32], DedupEntry>,
    disk: Map<[u8; 32], [u8; 32]>,
    base: Seq<OperationView>,
    ops: Seq<OperationView>,
    new: Seq<bool>,
    reservation: u64,
    i: int,
)
    requires
        nothing_pending(memory),
        knows_exactly(memory, disk, base),
        preflight(memory, ops, looked_up(ops, disk), reservation).1 == PreflightView::Ready(new),
        0 <= i <= ops.len(),
    ensures
        distinct(base + ops, base.len() + i) == distinct_ops(base) + selected(ops, new, i),
    decreases i,
{
    let all = base + ops;
    let n = base.len() as int;
    if i == 0 {
        lemma_distinct_prefix(base, all, n);
        assert(distinct_ops(base) + selected(ops, new, 0) =~= distinct_ops(base));
    } else {
        lemma_new_is_distinct(memory, disk, base, ops, new, reservation, i - 1);
        law_new_means_unknown(memory, disk, ops, reservation, i - 1);
        let key = key_at(ops, i - 1);
        assert(all[n + i - 1] == ops[i - 1]);
        lemma_has_key_concat(base, ops, i - 1, key);
        assert(known(memory, disk, key) is Some <==> has_key(base, n, key));
        if new[i - 1] {
            assert((distinct_ops(base) + selected(ops, new, i - 1)).push(ops[i - 1])
                =~= distinct_ops(base) + selected(ops, new, i));
        }
    }
}

/// Every operation identifier counts once: however operations are put into batches,
/// and however often they come again, those that are applied are the operations of
/// the batches that were taken, each of them the first time it came, and none that
/// was known before.
pub proof fn law_each_operation_counts_once(
    memory: Map<[u8; 32], DedupEntry>,
    disk: Map<[u8; 32], [u8; 32]>,
    prior: Seq<OperationView>,
    batches: Seq<(Seq<OperationView>, u64)>,
)
    requires
        nothing_pending(memory),
        knows_exactly(memory, disk, prior),
    ensures
        ({
            let end = deliver_all(memory, disk, batches);
            &&& nothing_pending(end.memory)
            &&& knows_exactly(end.memory, disk, prior + end.taken)
            &&& distinct_ops(prior + end.taken) == distinct_ops(prior) + end.applied
        }),
    decreases batches.len(),
{
    if batches.len() == 0 {
        assert(prior + Seq::<OperationView>::empty() =~= prior);
        assert(distinct_ops(prior) + Seq::<OperationView>::empty() =~= distinct_ops(prior));
    } else {
        law_each_operation_counts_once(memory, disk, prior, batches.drop_last());
        let before = deliver_all(memory, disk, batches.drop_last());
        let ops = batches.last().0;
        let reservation = batches.last().1;
        let base = prior + before.taken;
        let (reserved, answer) = preflight(
            before.memory,
            ops,
            looked_up(ops, disk),
            reservation,
        );
        if let PreflightView::Ready(new) = answer {
            law_ready_batch_is_reserved(before.memory, disk, ops, reservation);
            let end = deliver_all(memory, disk, batches);
            let all = base + ops;
            assert(prior + end.taken =~= all);
            assert forall|key: [u8; 32]| #[trigger]
                known(end.memory, disk, key) is Some <==> has_key(all, all.len() as int, key) by {
                law_commit_makes_the_batch_known(before.memory, disk, ops, reservation, key);
                lemma_has_key_concat(base, ops, ops.len() as int, key);
                assert(known(before.memory, disk, key) is Some <==> has_key(
                    base,
                    base.len() as int,
                    key,
                ));
            }
            law_commit_makes_the_batch_known(
                before.memory,
                disk,
                ops,
                reservation,
                id_key(Seq::empty()),
            );
            lemma_new_is_distinct(
                before.memory,
                disk,
                base,
                ops,
                new,
                reservation,
                ops.len() as int,
            );
            assert(flagged(ops, new) == ops.len());
            assert(distinct_ops(prior) + end.applied =~= (distinct_ops(prior) + before.applied)
                + new_ops(ops, new));
        }
    }
}

pub proof fn lemma_add_ops_concat(
    balances: Map<(Seq<char>, Seq<char>), i64>,
    a: Seq<OperationView>,
    b: Seq<OperationView>,
)
    ensures
        add_ops(add_ops(balances, a), b) == add_ops(balances, a + b),
    decreases b.len(),
{
    if b.len() == 0 {
        assert(a + b =~= a);
    } else {
        lemma_add_ops_concat(balances, a, b.drop_last());
        assert((a + b).drop_last() =~= a + b.drop_last());
        assert((a + b).last() == b.last());
    }
}

/// Deliveries to a node and a restart from the log of what they brought come to
/// the same balances: those of the snapshot, and each operation once.
pub proof fn law_deliveries_agree_with_a_restart(
    snapshot: Option<SnapshotView>,
    prior: Seq<OperationView>,
    memory: Map<[u8; 32], DedupEntry>,
    disk: Map<[u8; 32], [u8; 32]>,
    batches: Seq<(Seq<OperationView>, u64)>,
)
    requires
        nothing_pending(memory),
        knows_exactly(memory, disk, prior),
    ensures
        ({
            let end = deliver_all(memory, disk, batches);
            add_ops(recovered_balances(snapshot, prior), end.applied) == recovered_balances(
                snapshot,
                prior + end.taken,
            )
        }),
{
    law_each_operation_counts_once(memory, disk, prior, batches);
    let end = deliver_all(memory, disk, batches);
    lemma_add_ops_concat(snapshot_map(snapshot), distinct_ops(prior), end.applied);
}

// ---------------------------------------------------------------- later deliveries
/// What is committed stays committed, with what it says, when a batch is delivered.
proof fn lemma_known_is_kept(
    state: Delivered,
    disk: Map<[u8; 32], [u8; 32]>,
    ops: Seq<OperationView>,
    reservation: u64,
    key: [u8; 32],
)
    requires
        known(state.memory, disk, key) is Some,
    ensures
        known(deliver_one(state, disk, ops, reservation).memory, disk, key) == known(
            state.memory,
            disk,
            key,
        ),
{
    law_ready_batch_is_reserved(state.memory, disk, ops, reservation);
    let (reserved, answer) = preflight(state.memory, ops, looked_up(ops, disk), reservation);
    if let PreflightView::Ready(new) = answer {
        if state.memory.contains_key(key) {
            assert(reserved.contains_key(key));
        } else if reserved.contains_key(key) {
            let i = choose|i: int| 0 <= i < ops.len() && #[trigger] new[i] && key_at(ops, i) == key;
            assert(!disk.contains_key(key));
        }
        assert(known(reserved, disk, key) == known(state.memory, disk, key));
        law_committed_batch_is_known(reserved, disk, ops, new, reservation);
    }
}

/// A batch of committed operations stays committed through any deliveries: whenever
/// it comes again, it is answered with nothing new, and changes nothing.
pub proof fn law_redelivery_at_any_time_changes_nothing(
    memory: Map<[u8; 32], DedupEntry>,
    disk: Map<[u8; 32], [u8; 32]>,
    ops: Seq<OperationView>,
    batches: Seq<(Seq<OperationView>, u64)>,
    later: u64,
)
    requires
        forall|i: int| 0 <= i < ops.len() ==> #[trigger] known_at(memory, disk, ops, i),
    ensures
        ({
            let end = deliver_all(memory, disk, batches).memory;
            &&& forall|i: int| 0 <= i < ops.len() ==> #[trigger] known_at(end, disk, ops, i)
            &&& preflight(end, ops, looked_up(ops, disk), later) == (
                end,
                PreflightView::Ready(nothing_new(ops)),
            )
        }),
    decreases batches.len(),
{
    let end = deliver_all(memory, disk, batches).memory;
    if batches.len() > 0 {
        let (batch, reservation) = batches.last();
        let before = deliver_all(memory, disk, batches.drop_last());
        law_redelivery_at_any_time_changes_nothing(memory, disk, ops, batches.drop_last(), later);
        assert forall|i: int| 0 <= i < ops.len() implies #[trigger] known_at(end, disk, ops, i) by {
            assert(known_at(before.memory, disk, ops, i));
            lemma_known_is_kept(before, disk, batch, reservation, key_at(ops, i));
        }
    }
    law_known_operations_are_duplicates(end, disk, ops, later);
}

/// A batch that was delivered and taken is answered with nothing new whenever it
/// comes again, whatever was delivered in between.
pub proof fn law_taken_batch_is_never_new_again(
    state: Delivered,
    disk: Map<[u8; 32], [u8; 32]>,
    ops: Seq<OperationView>,
    reservation: u64,
    batches: Seq<(Seq<OperationView>, u64)>,
    later: u64,
)
    requires
        preflight(state.memory, ops, looked_up(ops, disk), reservation).1 is Ready,
    ensures
        ({
            let taken = deliver_one(state, disk, ops, reservation).memory;
            let end = deliver_all(taken, disk, batches).memory;
            preflight(end, ops, looked_up(ops, disk), later) == (
                end,
                PreflightView::Ready(nothing_new(ops)),
            )
        }),
{
    law_ready_batch_is_reserved(state.memory, disk, ops, reservation);
    let (reserved, answer) = preflight(state.memory, ops, looked_up(ops, disk), reservation);
    if let PreflightView::Ready(new) = answer {
        law_committed_batch_is_known(reserved, disk, ops, new, reservation);
        let taken = deliver_one(state, disk, ops, reservation).memory;
        law_redelivery_at_any_time_changes_nothing(taken, disk, ops, batches, later);
    }
}

// ---------------------------------------------------------------- one committed batch
/// Committing a batch where no other is on its way adds the changes of its new
/// operations to the published balances, each once; from then on the batch brings
/// nothing new, and a batch with one of its identifiers and another content is
/// refused and changes nothing.
pub proof fn law_committed_batch_is_final(
    published: Map<(Seq<char>, Seq<char>), i64>,
    memory: Map<[u8; 32], DedupEntry>,
    disk: Map<[u8; 32], [u8; 32]>,
    ops: Seq<OperationView>,
    reservation: u64,
    key: (Seq<char>, Seq<char>),
    others: Seq<OperationView>,
    later: u64,
)
    requires
        nothing_pending(memory),
        keys_tell_apart(others),
    ensures
        ({
            let (reserved, answer) = preflight(memory, ops, looked_up(ops, disk), reservation);
            answer matches PreflightView::Ready(new) ==> {
                let after = finished(reserved, ops, new, true).memory;
                &&& ops_addable(published, new_ops(ops, new)) ==> balance_of(
                    add_ops(published, new_ops(ops, new)),
                    key,
                ) == balance_of(published, key) + flagged_total(ops, new, key, ops.len() as int)
                &&& preflight(after, ops, looked_up(ops, disk), later) == (
                    after,
                    PreflightView::Ready(nothing_new(ops)),
                )
                &&& (exists|i: int, k: int|
                    0 <= i < ops.len() && 0 <= k < others.len() && other_content(
                        #[trigger] ops[i],
                        #[trigger] others[k],
                    )) ==> preflight(after, others, looked_up(others, disk), later).1 is Conflict
                    && preflight(after, others, looked_up(others, disk), later).0 == after
            }
        }),
{
    let (reserved, answer) = preflight(memory, ops, looked_up(ops, disk), reservation);
    if let PreflightView::Ready(new) = answer {
        let after = finished(reserved, ops, new, true).memory;
        law_ready_batch_is_reserved(memory, disk, ops, reservation);
        law_committed_batch_is_known(reserved, disk, ops, new, reservation);
        law_redelivery_changes_nothing(published, memory, disk, ops, reservation, later);
        law_commit_makes_the_batch_known(memory, disk, ops, reservation, id_key(Seq::empty()));
        assert(flagged(ops, new) == ops.len());
        lemma_flagged_total(ops, new, key, ops.len() as int);
        if ops_addable(published, new_ops(ops, new)) {
            law_balance_is_the_sum_of_changes(published, new_ops(ops, new), key);
        }
        if exists|i: int, k: int|
            0 <= i < ops.len() && 0 <= k < others.len() && other_content(
                #[trigger] ops[i],
                #[trigger] others[k],
            ) {
            let (i, k) = choose|i: int, k: int|
                0 <= i < ops.len() && 0 <= k < others.len() && other_content(
                    #[trigger] ops[i],
                    #[trigger] others[k],
                );
            assert(known_at(after, disk, ops, i));
            assert(key_at(others, k) == key_at(ops, i));
            assert(!known_at(after, disk, others, k));
            law_lone_batch_is_refused_exactly_for_other_content(after, disk, others, later);
        }
    }
}

/// Whether an operation has the identifier of another and not its fingerprint.
pub open spec fn other_content(a: OperationView, b: OperationView) -> bool {
    a.operation_id == b.operation_id && op_fingerprint(a) != op_fingerprint(b)
}

/// Once a batch is committed where no other is on its way, a batch that has one of
/// its identifiers and says something else under it is refused and changes nothing,
/// as long as digests tell the two apart.
pub proof fn law_committed_content_is_final(
    memory: Map<[u8; 32], DedupEntry>,
    disk: Map<[u8; 32], [u8; 32]>,
    ops: Seq<OperationView>,
    reservation: u64,
    i: int,
    others: Seq<OperationView>,
    k: int,
    later: u64,
)
    requires
        nothing_pending(memory),
        keys_tell_apart(others),
        0 <= i < ops.len(),
        0 <= k < others.len(),
        told_apart(ops[i], others[k]),
        contradicts(ops[i], others[k]),
    ensures
        ({
            let (reserved, answer) = preflight(memory, ops, looked_up(ops, disk), reservation);
            answer matches PreflightView::Ready(new) ==> {
                let after = finished(reserved, ops, new, true).memory;
                let (end, again) = preflight(after, others, looked_up(others, disk), later);
                again is Conflict && end == after
            }
        }),
{
    law_digests_stand_for_operations(ops[i], others[k]);
    assert(other_content(ops[i], others[k]));
    law_committed_batch_is_final(
        Map::empty(),
        memory,
        disk,
        ops,
        reservation,
        (Seq::empty(), Seq::empty()),
        others,
        later,
    );
}

// ---------------------------------------------------------------- a restart, by identifiers
/// Those of the first `n` operations that come first with their identifier.
pub open spec fn first_ones(ops: Seq<OperationView>, n: int) -> Seq<OperationView>
    decreases n,
{
    if n <= 0 {
        Seq::empty()
    } else if is_first(ops, n - 1) {
        first_ones(ops, n - 1).push(ops[n - 1])
    } else {
        first_ones(ops, n - 1)
    }
}

proof fn lemma_first_ones(ops: Seq<OperationView>, n: int)
    requires
        keys_tell_apart(ops),
        0 <= n <= ops.len(),
    ensures
        distinct(ops, n) == first_ones(ops, n),
    decreases n,
{
    if n > 0 {
        lemma_first_ones(ops, n - 1);
        let last = n - 1;
        let key = id_key(ops[last].operation_id);
        if has_key(ops, last, key) {
            let j = choose|j: int| 0 <= j < last && id_key((#[trigger] ops[j]).operation_id) == key;
            assert(key_at(ops, j) == key_at(ops, last));
            assert(ops[j].operation_id == ops[last].operation_id);
            assert(!is_first(ops, last));
        } else if !is_first(ops, last) {
            let j = choose|j: int|
                0 <= j < last && (#[trigger] ops[j]).operation_id == ops[last].operation_id;
            assert(has_key(ops, last, key));
        }
    }
}

/// The entries of a snapshot that are about different balances are the balances of
/// the snapshot.
pub proof fn law_snapshot_says_its_balances(entries: Seq<BalanceView>)
    requires
        forall|i: int, j: int|
            0 <= i < j < entries.len() ==> entry_key(#[trigger] entries[i]) != entry_key(
                #[trigger] entries[j],
            ),
    ensures
        lists(entries, entry_map(entries)),
    decreases entries.len(),
{
    if entries.len() > 0 {
        let front = entries.drop_last();
        let last = entries.len() - 1;
        assert forall|i: int, j: int| 0 <= i < j < front.len() implies entry_key(#[trigger] front[i])
            != entry_key(#[trigger] front[j]) by {
            assert(entry_key(entries[i]) != entry_key(entries[j]));
        }
        law_snapshot_says_its_balances(front);
        let map = entry_map(entries);
        assert forall|i: int| 0 <= i < entries.len() implies map.contains_key(
            entry_key(#[trigger] entries[i]),
        ) && map[entry_key(entries[i])] == entries[i].balance by {
            if i < last {
                assert(front[i] == entries[i]);
                assert(entry_key(entries[i]) != entry_key(entries[last]));
            }
        }
        assert forall|key: (Seq<char>, Seq<char>)| #[trigger] map.contains_key(key) implies exists|i: int|
            0 <= i < entries.len() && entry_key(#[trigger] entries[i]) == key by {
            if key == entry_key(entries[last]) {
                assert(entry_key(entries[last]) == key);
            } else {
                assert(entry_map(front).contains_key(key));
                let i = choose|i: int| 0 <= i < front.len() && entry_key(#[trigger] front[i]) == key;
                assert(entries[i] == front[i]);
            }
        }
    }
}

/// After a restart each balance is that of the snapshot and the sum of the changes
/// by the operations of the log, each identifier counting the first time it stands
/// there.
pub proof fn law_restart_adds_each_identifier_once(
    snapshot: Option<SnapshotView>,
    recovered: Seq<OperationView>,
    key: (Seq<char>, Seq<char>),
)
    requires
        keys_tell_apart(recovered),
        ops_addable(snapshot_map(snapshot), distinct_ops(recovered)),
    ensures
        balance_of(recovered_balances(snapshot, recovered), key) == balance_of(
            snapshot_map(snapshot),
            key,
        ) + total(first_ones(recovered, recovered.len() as int), key),
{
    lemma_first_ones(recovered, recovered.len() as int);
    law_balance_is_the_sum_of_changes(snapshot_map(snapshot), distinct_ops(recovered), key);
}

/// The disk after entries were written to it.
pub open spec fn disk_after(
    disk: Map<[u8; 32], [u8; 32]>,
    entries: Seq<([u8; 32], [u8; 32])>,
) -> Map<[u8; 32], [u8; 32]>
    decreases entries.len(),
{
    if entries.len() == 0 {
        disk
    } else {
        disk_after(disk, entries.drop_last()).insert(entries.last().0, entries.last().1)
    }
}

/// The disk after batches of entries were written to it.
pub open spec fn disk_after_batches(
    disk: Map<[u8; 32], [u8; 32]>,
    batches: Seq<Seq<([u8; 32], [u8; 32])>>,
) -> Map<[u8; 32], [u8; 32]>
    decreases batches.len(),
{
    if batches.len() == 0 {
        disk
    } else {
        disk_after(disk_after_batches(disk, batches.drop_last()), batches.last())
    }
}

pub proof fn lemma_disk_after(
    disk: Map<[u8; 32], [u8; 32]>,
    entries: Seq<([u8; 32], [u8; 32])>,
    key: [u8; 32],
)
    ensures
        disk_after(disk, entries).get(key) == disk.get(key) || exists|i: int|
            0 <= i < entries.len() && (#[trigger] entries[i]).0 == key && disk_after(
                disk,
                entries,
            ).get(key) == Some(entries[i].1),
        disk.contains_key(key) ==> disk_after(disk, entries).contains_key(key),
        (exists|i: int| 0 <= i < entries.len() && (#[trigger] entries[i]).0 == key) ==> exists|i: int|
            0 <= i < entries.len() && (#[trigger] entries[i]).0 == key && disk_after(
                disk,
                entries,
            ).get(key) == Some(entries[i].1),
    decreases entries.len(),
{
    if entries.len() > 0 {
        let front = entries.drop_last();
        let last = entries.len() - 1;
        lemma_disk_after(disk, front, key);
        if entries[last].0 == key {
            assert(disk_after(disk, entries).get(key) == Some(entries[last].1));
        } else {
            if exists|i: int| 0 <= i < entries.len() && (#[trigger] entries[i]).0 == key {
                let i = choose|i: int| 0 <= i < entries.len() && (#[trigger] entries[i]).0 == key;
                assert(front[i].0 == key);
            }
            if exists|i: int|
                0 <= i < front.len() && (#[trigger] front[i]).0 == key && disk_after(disk, front).get(
                    key,
                ) == Some(front[i].1) {
                let i = choose|i: int|
                    0 <= i < front.len() && (#[trigger] front[i]).0 == key && disk_after(
                        disk,
                        front,
                    ).get(key) == Some(front[i].1);
                assert(entries[i] == front[i]);
            }
        }
    }
}

/// Whether a batch of entries speaks of a key.
pub open spec fn speaks_of(batches: Seq<Seq<([u8; 32], [u8; 32])>>, key: [u8; 32]) -> bool {
    exists|print: [u8; 32]| #[trigger] is_handed_over(batches, (key, print))
}

/// Under a key that batches speak of, the disk holds after them what one of them says.
proof fn lemma_disk_after_batches(
    disk: Map<[u8; 32], [u8; 32]>,
    batches: Seq<Seq<([u8; 32], [u8; 32])>>,
    key: [u8; 32],
)
    requires
        speaks_of(batches, key),
    ensures
        disk_after_batches(disk, batches).contains_key(key),
        is_handed_over(batches, (key, disk_after_batches(disk, batches)[key])),
    decreases batches.len(),
{
    let print = choose|print: [u8; 32]| #[trigger] is_handed_over(batches, (key, print));
    let b = choose|b: int| 0 <= b < batches.len() && (#[trigger] batches[b]).contains((key, print));
    let last = batches.len() - 1;
    let front = batches.drop_last();
    let before = disk_after_batches(disk, front);
    let entries = batches[last];
    lemma_disk_after(before, entries, key);
    let now = disk_after(before, entries);
    if b == last {
        let i = choose|i: int| 0 <= i < entries.len() && entries[i] == (key, print);
        assert(entries[i].0 == key);
    } else {
        assert(front[b].contains((key, print)));
        assert(is_handed_over(front, (key, print)));
        lemma_disk_after_batches(disk, front, key);
    }
    assert(now.contains_key(key));
    if exists|i: int|
        0 <= i < entries.len() && (#[trigger] entries[i]).0 == key && now.get(key) == Some(entries[i].1) {
        let i = choose|i: int|
            0 <= i < entries.len() && (#[trigger] entries[i]).0 == key && now.get(key) == Some(
                entries[i].1,
            );
        assert(entries[i] == (key, now[key]));
        assert(batches[last].contains((key, now[key])));
    } else {
        assert(now.get(key) == before.get(key));
        let c = choose|c: int| 0 <= c < front.len() && (#[trigger] front[c]).contains((key, before[key]));
        assert(batches[c].contains((key, now[key])));
    }
}

/// Where a restart says of no key two things, the disk holds afterwards everything
/// that was handed to it, whatever it held before.
pub proof fn law_disk_holds_what_a_restart_wrote(
    disk: Map<[u8; 32], [u8; 32]>,
    batches: Seq<Seq<([u8; 32], [u8; 32])>>,
)
    requires
        forall|key: [u8; 32], a: [u8; 32], b: [u8; 32]| #[trigger]
            is_handed_over(batches, (key, a)) && #[trigger] is_handed_over(batches, (key, b)) ==> a == b,
    ensures
        disk_holds(disk_after_batches(disk, batches), batches),
{
    let now = disk_after_batches(disk, batches);
    assert forall|entry: ([u8; 32], [u8; 32])| #[trigger] is_handed_over(batches, entry) implies now.get(
        entry.0,
    ) == Some(entry.1) by {
        assert(entry == (entry.0, entry.1));
        assert(is_handed_over(batches, (entry.0, entry.1)));
        assert(speaks_of(batches, entry.0));
        lemma_disk_after_batches(disk, batches, entry.0);
    }
}

proof fn lemma_key_is_kept(ops: Seq<OperationView>, n: int, key: [u8; 32])
    requires
        0 <= n <= ops.len(),
        has_key(ops, n, key),
    ensures
        exists|p: int|
            0 <= p < distinct(ops, n).len() && id_key((#[trigger] distinct(ops, n)[p]).operation_id) == key,
    decreases n,
{
    let j = choose|j: int| 0 <= j < n && id_key((#[trigger] ops[j]).operation_id) == key;
    let kept = distinct(ops, n);
    let before = distinct(ops, n - 1);
    if has_key(ops, n - 1, key) {
        lemma_key_is_kept(ops, n - 1, key);
        let p = choose|p: int|
            0 <= p < before.len() && id_key((#[trigger] before[p]).operation_id) == key;
        assert(kept[p] == before[p]);
    } else {
        assert(j == n - 1);
        assert(kept[before.len() as int] == ops[n - 1]);
    }
}

/// A node that was started again calls no identifier of its log new, whatever the
/// disk held before.
pub proof fn law_restarted_node_calls_nothing_logged_new(
    snapshot: Option<SnapshotView>,
    recovered: Seq<OperationView>,
    disk: Map<[u8; 32], [u8; 32]>,
    ops: Seq<OperationView>,
    reservation: u64,
    i: int,
)
    requires
        0 <= i < ops.len(),
        has_key(recovered, recovered.len() as int, key_at(ops, i)),
    ensures
        preflight(
            Map::empty(),
            ops,
            looked_up(ops, disk_after_batches(disk, restart_batches(snapshot, recovered))),
            reservation,
        ).1 matches PreflightView::Ready(new) ==> !new[i],
{
    let batches = restart_batches(snapshot, recovered);
    let now = disk_after_batches(disk, batches);
    let key = key_at(ops, i);
    let kept = distinct_ops(recovered);
    lemma_key_is_kept(recovered, recovered.len() as int, key);
    let p = choose|p: int| 0 <= p < kept.len() && id_key((#[trigger] kept[p]).operation_id) == key;
    let entry = (key, op_fingerprint(kept[p]));
    assert(op_entries(kept)[p] == entry);
    law_restart_hands_everything_to_the_disk(snapshot, recovered, entry);
    assert(speaks_of(batches, key));
    lemma_disk_after_batches(disk, batches, key);
    law_new_means_unknown(Map::empty(), now, ops, reservation, i);
}

} // verus!
