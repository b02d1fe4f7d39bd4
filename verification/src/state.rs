//! The state of a warehouse: the balances as they are applied, the balances as
//! they are published, and the deduplication index.

use vstd::prelude::*;
use vstd::utf8::{encode_utf8, encode_utf8_decode_utf8};

use crate::balances::{
    add_ops, apply_one, balance_in, balance_of, can_apply, key_of, law_balance_is_the_sum_of_changes,
    lemma_add_ops_step, lemma_addable_prefix, op_key, ops_addable, total, BalanceKey, Balances,
};
use crate::dedup::{
    self, finish_reserved, finished, flagged, preflight, retire_persisted, retired, Dedup, DedupEntry,
    DedupKey, Finished, Finishing, Preflight, DEDUP_SHARDS,
};
use crate::model::{operation_views, ApplyResult, ApplyResultView, ApplyStatus, Operation, OperationView};
use crate::order::{has_row, ordered_rows, row_bytes, sort_rows};
use crate::recovery::{
    batch_entries, batch_views, distinct_ops, entry_map, keep_distinct, load_balances, recovered_balances,
    restart_batches, snapshot_map, snapshot_view,
};
use crate::sharded::{count_entries, ShardKey};
use crate::snapshot::{balance_views, BalanceSnapshot, BalanceView, SnapshotData, SnapshotView};
use crate::table::{lemma_entry_in_map, lemma_map_in_entries, Table};

verus! {

/// The state of a warehouse.
pub struct Store {
    balances: Balances,
    published: Balances,
    dedup: Dedup,
}

/// What the state of a warehouse says.
pub ghost struct StoreView {
    /// The balances after every operation that was applied.
    pub balances: Map<(Seq<char>, Seq<char>), i64>,
    /// The balances after every operation that was committed.
    pub published: Map<(Seq<char>, Seq<char>), i64>,
    /// What is known of operation identifiers and not yet on the disk.
    pub dedup: Map<[u8; 32], DedupEntry>,
}

impl View for Store {
    type V = StoreView;

    closed spec fn view(&self) -> StoreView {
        StoreView {
            balances: self.balances@,
            published: self.published@,
            dedup: self.dedup@,
        }
    }
}

// ---------------------------------------------------------------- the new operations of a batch
/// Those of the first `n` operations that are flagged as new.
pub open spec fn selected(ops: Seq<OperationView>, new: Seq<bool>, n: int) -> Seq<OperationView>
    decreases n,
{
    if n <= 0 {
        Seq::empty()
    } else if new[n - 1] {
        selected(ops, new, n - 1).push(ops[n - 1])
    } else {
        selected(ops, new, n - 1)
    }
}

/// The operations that are flagged as new.
pub open spec fn new_ops(ops: Seq<OperationView>, new: Seq<bool>) -> Seq<OperationView> {
    selected(ops, new, flagged(ops, new))
}

/// The operations that are flagged as new.
pub fn select_new(operations: &[Operation], new: &[bool]) -> (fresh: Vec<Operation>)
    ensures
        operation_views(fresh@) == new_ops(operation_views(operations@), new@),
{
    let ghost ops = operation_views(operations@);
    let mut fresh: Vec<Operation> = Vec::new();
    let mut at: usize = 0;
    assert(operation_views(fresh@) =~= selected(ops, new@, 0));
    while at < operations.len() && at < new.len()
        invariant
            at <= operations@.len(),
            at <= new@.len(),
            ops == operation_views(operations@),
            operation_views(fresh@) == selected(ops, new@, at as int),
        decreases operations@.len() - at,
    {
        if new[at] {
            let ghost before = fresh@;
            fresh.push(operations[at].clone());
            assert(operation_views(fresh@) =~= operation_views(before).push(ops[at as int]));
        }
        at = at + 1;
    }
    fresh
}

proof fn lemma_selected_prefix(ops: Seq<OperationView>, new: Seq<bool>, i: int, n: int)
    requires
        0 <= i <= n,
    ensures
        selected(ops, new, i).len() <= selected(ops, new, n).len(),
        selected(ops, new, i) == selected(ops, new, n).take(selected(ops, new, i).len() as int),
    decreases n,
{
    let part = selected(ops, new, i);
    let all = selected(ops, new, n);
    if i == n {
        assert(all.take(all.len() as int) =~= all);
    } else {
        lemma_selected_prefix(ops, new, i, n - 1);
        let before = selected(ops, new, n - 1);
        assert(all.take(part.len() as int) =~= before.take(part.len() as int));
    }
}

// ---------------------------------------------------------------- answers
/// The answer to operation `i` of a batch in which every operation is new.
pub open spec fn applied(
    balances: Map<(Seq<char>, Seq<char>), i64>,
    ops: Seq<OperationView>,
    i: int,
) -> ApplyResultView {
    ApplyResultView {
        operation_id: ops[i].operation_id,
        status: ApplyStatus::Applied,
        balance: add_ops(balances, ops.take(i + 1))[op_key(ops[i])],
    }
}

/// The answer to operation `i` of a batch: a new one is applied after the new ones
/// before it, and any other is answered with the published balance.
pub open spec fn answered(
    balances: Map<(Seq<char>, Seq<char>), i64>,
    published: Map<(Seq<char>, Seq<char>), i64>,
    ops: Seq<OperationView>,
    new: Seq<bool>,
    i: int,
) -> ApplyResultView {
    if new[i] {
        ApplyResultView {
            operation_id: ops[i].operation_id,
            status: ApplyStatus::Applied,
            balance: add_ops(balances, selected(ops, new, i + 1))[op_key(ops[i])],
        }
    } else {
        ApplyResultView {
            operation_id: ops[i].operation_id,
            status: ApplyStatus::Duplicate,
            balance: balance_of(published, op_key(ops[i])),
        }
    }
}

/// Each operation of a batch is answered under its own identifier. A new one is
/// applied, and its balance is that of its owner and stock-keeping unit before the
/// batch and the sum of the changes to it by the new operations of the batch up to
/// and with this one, whatever is published. Any other one is a duplicate, and its
/// balance is the published one.
pub proof fn law_answer_says_the_balance(
    balances: Map<(Seq<char>, Seq<char>), i64>,
    published: Map<(Seq<char>, Seq<char>), i64>,
    ops: Seq<OperationView>,
    new: Seq<bool>,
    i: int,
)
    requires
        0 <= i < ops.len() <= new.len(),
        ops_addable(balances, new_ops(ops, new)),
    ensures
        ({
            let answer = answered(balances, published, ops, new, i);
            let key = (ops[i].owner_id, ops[i].sku);
            &&& answer.operation_id == ops[i].operation_id
            &&& answer.status == if new[i] {
                ApplyStatus::Applied
            } else {
                ApplyStatus::Duplicate
            }
            &&& new[i] ==> answer.balance == (if balances.contains_key(key) {
                balances[key] as int
            } else {
                0
            }) + flagged_total(ops, new, key, i + 1)
            &&& !new[i] ==> answer.balance == (if published.contains_key(key) {
                published[key] as int
            } else {
                0
            })
        }),
{
    let key = op_key(ops[i]);
    let part = selected(ops, new, i + 1);
    let all = new_ops(ops, new);
    if new[i] {
        lemma_selected_prefix(ops, new, i + 1, flagged(ops, new));
        lemma_addable_prefix(balances, all, part.len() as int);
        law_balance_is_the_sum_of_changes(balances, part, key);
        lemma_flagged_total(ops, new, key, i + 1);
        lemma_changed_is_recorded(balances, part);
        assert(part.last() == ops[i]);
    }
}

/// The sum of the changes to a balance by those of the first `n` operations that are
/// flagged as new.
pub open spec fn flagged_total(
    ops: Seq<OperationView>,
    new: Seq<bool>,
    key: (Seq<char>, Seq<char>),
    n: int,
) -> int
    decreases n,
{
    if n <= 0 {
        0
    } else {
        flagged_total(ops, new, key, n - 1) + if new[n - 1] && op_key(ops[n - 1]) == key {
            ops[n - 1].delta as int
        } else {
            0
        }
    }
}

/// One more operation adds its change to the sum where it is flagged as new and is on
/// the balance, and else nothing.
pub proof fn law_flagged_changes_add_up(
    ops: Seq<OperationView>,
    new: Seq<bool>,
    owner_id: Seq<char>,
    sku: Seq<char>,
    n: int,
)
    requires
        0 <= n < ops.len(),
    ensures
        flagged_total(ops, new, (owner_id, sku), 0) == 0,
        new[n] && ops[n].owner_id == owner_id && ops[n].sku == sku ==> flagged_total(
            ops,
            new,
            (owner_id, sku),
            n + 1,
        ) - flagged_total(ops, new, (owner_id, sku), n) == ops[n].delta,
        !new[n] || ops[n].owner_id != owner_id || ops[n].sku != sku ==> flagged_total(
            ops,
            new,
            (owner_id, sku),
            n + 1,
        ) == flagged_total(ops, new, (owner_id, sku), n),
{
}

/// The sum of the changes by the flagged operations is that of the operations that
/// are picked out.
pub proof fn lemma_flagged_total(
    ops: Seq<OperationView>,
    new: Seq<bool>,
    key: (Seq<char>, Seq<char>),
    n: int,
)
    ensures
        total(selected(ops, new, n), key) == flagged_total(ops, new, key, n),
    decreases n,
{
    if n > 0 {
        lemma_flagged_total(ops, new, key, n - 1);
        let before = selected(ops, new, n - 1);
        if new[n - 1] {
            assert(before.push(ops[n - 1]).drop_last() =~= before);
        }
    }
}

proof fn lemma_changed_is_recorded(
    balances: Map<(Seq<char>, Seq<char>), i64>,
    ops: Seq<OperationView>,
)
    requires
        ops.len() > 0,
    ensures
        add_ops(balances, ops).contains_key(op_key(ops.last())),
{
}

/// In a batch in which every operation is new, each is applied under its own
/// identifier, and its balance is that before the batch and the sum of the changes to
/// it up to and with this one.
pub proof fn law_applied_answer_says_the_balance(
    balances: Map<(Seq<char>, Seq<char>), i64>,
    ops: Seq<OperationView>,
    i: int,
)
    requires
        0 <= i < ops.len(),
        ops_addable(balances, ops),
    ensures
        ({
            let answer = applied(balances, ops, i);
            let key = (ops[i].owner_id, ops[i].sku);
            &&& answer.operation_id == ops[i].operation_id
            &&& answer.status == ApplyStatus::Applied
            &&& answer.balance == (if balances.contains_key(key) {
                balances[key] as int
            } else {
                0
            }) + total(ops.take(i + 1), key)
        }),
{
    lemma_addable_prefix(balances, ops, i + 1);
    law_balance_is_the_sum_of_changes(balances, ops.take(i + 1), op_key(ops[i]));
    lemma_changed_is_recorded(balances, ops.take(i + 1));
}

/// One operation more, and its flag, adds the operation to the new ones where it is
/// flagged, behind those before it, and else nothing; flags without operations and
/// operations without flags add nothing.
pub proof fn law_new_operations_are_the_flagged_ones(
    ops: Seq<OperationView>,
    new: Seq<bool>,
    op: OperationView,
    flag: bool,
)
    ensures
        ops.len() == new.len() ==> new_ops(ops.push(op), new.push(flag)) == new_ops(ops, new) + (if flag {
            seq![op]
        } else {
            Seq::empty()
        }),
        ops.len() >= new.len() ==> new_ops(ops.push(op), new) == new_ops(ops, new),
        ops.len() <= new.len() ==> new_ops(ops, new.push(flag)) == new_ops(ops, new),
        ops.len() == 0 || new.len() == 0 ==> new_ops(ops, new).len() == 0,
{
    let n = if ops.len() < new.len() {
        ops.len() as int
    } else {
        new.len() as int
    };
    lemma_selected_same(ops, new, ops.push(op), new.push(flag), n);
    lemma_selected_same(ops, new, ops.push(op), new, n);
    lemma_selected_same(ops, new, ops, new.push(flag), n);
}

proof fn lemma_selected_same(
    ops: Seq<OperationView>,
    new: Seq<bool>,
    other_ops: Seq<OperationView>,
    other_new: Seq<bool>,
    n: int,
)
    requires
        forall|i: int| 0 <= i < n ==> #[trigger] ops[i] == other_ops[i],
        forall|i: int| 0 <= i < n ==> #[trigger] new[i] == other_new[i],
    ensures
        selected(ops, new, n) == selected(other_ops, other_new, n),
    decreases n,
{
    if n > 0 {
        lemma_selected_same(ops, new, other_ops, other_new, n - 1);
        assert(new[n - 1] == other_new[n - 1]);
    }
}

// ---------------------------------------------------------------- what the steps of a batch change
/// A store after operations were applied.
pub open spec fn store_applied(store: StoreView, fresh: Seq<OperationView>) -> StoreView {
    StoreView { balances: add_ops(store.balances, fresh), ..store }
}

/// A store after a batch came to its end.
pub open spec fn store_finished(
    store: StoreView,
    ops: Seq<OperationView>,
    new: Seq<bool>,
    committed: bool,
) -> StoreView {
    StoreView {
        balances: store.balances,
        published: if committed {
            add_ops(store.published, new_ops(ops, new))
        } else {
            store.published
        },
        dedup: finished(store.dedup, ops, new, committed).memory,
    }
}

/// A store after a batch of the log was taken in.
pub open spec fn store_restored(
    store: StoreView,
    ops: Seq<OperationView>,
    new: Seq<bool>,
    persisted: bool,
) -> StoreView {
    if persisted {
        store_finished(store_applied(store, new_ops(ops, new)), ops, new, true)
    } else {
        store_finished(store, ops, new, false)
    }
}

/// Applying operations changes the balances, each by the sum of the changes to it, and
/// nothing that can be read or is known of identifiers.
pub proof fn law_applying_changes_only_balances(
    store: StoreView,
    fresh: Seq<OperationView>,
    owner_id: Seq<char>,
    sku: Seq<char>,
)
    requires
        ops_addable(store.balances, fresh),
    ensures
        ({
            let after = store_applied(store, fresh);
            let key = (owner_id, sku);
            let now = if after.balances.contains_key(key) {
                after.balances[key] as int
            } else {
                0
            };
            let before = if store.balances.contains_key(key) {
                store.balances[key] as int
            } else {
                0
            };
            &&& now == before + total(fresh, key)
            &&& after.published == store.published
            &&& after.dedup == store.dedup
        }),
{
    law_balance_is_the_sum_of_changes(store.balances, fresh, (owner_id, sku));
}

/// The end of a batch makes the changes of its new operations readable where it is
/// committed, each balance by the sum of the changes to it, and no change where it is
/// not; the balances themselves stay.
pub proof fn law_commit_makes_changes_readable(
    store: StoreView,
    ops: Seq<OperationView>,
    new: Seq<bool>,
    committed: bool,
    owner_id: Seq<char>,
    sku: Seq<char>,
)
    requires
        new.len() == ops.len(),
        committed ==> ops_addable(store.published, new_ops(ops, new)),
    ensures
        ({
            let after = store_finished(store, ops, new, committed);
            let key = (owner_id, sku);
            let now = if after.published.contains_key(key) {
                after.published[key] as int
            } else {
                0
            };
            let before = if store.published.contains_key(key) {
                store.published[key] as int
            } else {
                0
            };
            &&& committed ==> now == before + flagged_total(ops, new, key, ops.len() as int)
            &&& !committed ==> after.published == store.published
            &&& after.balances == store.balances
            &&& after.dedup == finished(store.dedup, ops, new, committed).memory
        }),
{
    let key = (owner_id, sku);
    if committed {
        law_balance_is_the_sum_of_changes(store.published, new_ops(ops, new), key);
        lemma_flagged_total(ops, new, key, ops.len() as int);
    }
}

/// A batch of the log that came to the disk is applied and committed; one that did not
/// changes neither the balances nor what can be read.
pub proof fn law_restored_batch_is_applied_and_committed(
    store: StoreView,
    ops: Seq<OperationView>,
    new: Seq<bool>,
)
    ensures
        store_restored(store, ops, new, true) == store_finished(
            store_applied(store, new_ops(ops, new)),
            ops,
            new,
            true,
        ),
        store_restored(store, ops, new, false).balances == store.balances,
        store_restored(store, ops, new, false).published == store.published,
        store_restored(store, ops, new, false).dedup == finished(store.dedup, ops, new, false).memory,
        store.balances == store.published ==> store_restored(store, ops, new, true).balances
            == store_restored(store, ops, new, true).published,
{
}

/// Of what is known of identifiers every entry is either committed or on its way, and
/// each is counted once.
pub proof fn law_entries_are_committed_or_on_their_way(
    dedup: Map<[u8; 32], DedupEntry>,
    key: [u8; 32],
    count: nat,
)
    ensures
        committed_keys(dedup).contains(key) <==> dedup.contains_key(key) && dedup[key] is Committed,
        pending_keys(dedup).contains(key) <==> dedup.contains_key(key) && dedup[key] is Pending,
        committed_keys(dedup).union(pending_keys(dedup)) == dedup.dom(),
        committed_keys(dedup).disjoint(pending_keys(dedup)),
        count <= usize::MAX ==> counted(count) == count,
        count > usize::MAX ==> counted(count) == usize::MAX,
{
    assert(committed_keys(dedup).union(pending_keys(dedup)) =~= dedup.dom());
}

/// Entries list balances exactly where each balance stands in one of them, and none of
/// them stands for anything else.
pub proof fn law_entries_list_the_balances(
    entries: Seq<BalanceView>,
    balances: Map<(Seq<char>, Seq<char>), i64>,
    i: int,
)
    requires
        lists(entries, balances),
    ensures
        entry_map(entries) == balances,
        0 <= i < entries.len() ==> balances.contains_key((entries[i].owner_id, entries[i].sku))
            && balances[(entries[i].owner_id, entries[i].sku)] == entries[i].balance,
        forall|a: int, b: int|
            0 <= a < b < entries.len() ==> (#[trigger] entries[a]).owner_id != (
            #[trigger] entries[b]).owner_id || entries[a].sku != entries[b].sku,
{
    lemma_lists(entries, balances);
    if 0 <= i < entries.len() {
        assert(entry_key(entries[i]) == (entries[i].owner_id, entries[i].sku));
    }
    assert forall|a: int, b: int| 0 <= a < b < entries.len() implies (
    #[trigger] entries[a]).owner_id != (#[trigger] entries[b]).owner_id || entries[a].sku
        != entries[b].sku by {
        assert(entry_key(entries[a]) != entry_key(entries[b]));
    }
}

/// What is said of answers is said of each, in their order, and what is written of a
/// balance is its owner, its stock-keeping unit and its number.
pub proof fn law_answers_are_said_one_by_one(
    results: Seq<ApplyResult>,
    entry: (BalanceKey, i64),
    i: int,
)
    ensures
        result_views(results).len() == results.len(),
        0 <= i < results.len() ==> result_views(results)[i] == results[i]@,
        dumped(entry).owner_id == entry.0.owner_id@,
        dumped(entry).sku == entry.0.sku@,
        dumped(entry).balance == entry.1,
        entry.0@ == (entry.0.owner_id@, entry.0.sku@),
        entry_key(dumped(entry)) == entry.0@,
{
}

/// A store after a restart.
pub open spec fn store_started(
    snapshot: Option<SnapshotView>,
    recovered: Seq<OperationView>,
) -> StoreView {
    StoreView {
        balances: recovered_balances(snapshot, recovered),
        published: recovered_balances(snapshot, recovered),
        dedup: Map::empty(),
    }
}

/// After a restart everything that was recovered can be read, and no batch is on its
/// way: a restart from nothing holds nothing, and one without a log holds what the
/// snapshot says.
pub proof fn law_restart_reads_what_it_recovered(
    snapshot: Option<SnapshotView>,
    recovered: Seq<OperationView>,
    key: [u8; 32],
)
    ensures
        store_started(snapshot, recovered).published == store_started(snapshot, recovered).balances,
        store_started(snapshot, recovered).balances == recovered_balances(snapshot, recovered),
        !store_started(snapshot, recovered).dedup.contains_key(key),
        store_started(None, Seq::empty()).published == Map::<(Seq<char>, Seq<char>), i64>::empty(),
        forall|said: SnapshotView| #[trigger]
            store_started(Some(said), Seq::empty()).published == entry_map(said.balances),
{
}

/// Whether rows are the balances of an owner, in the order of the stock-keeping units.
pub open spec fn are_rows_of_owner(
    rows: Seq<(String, i64)>,
    balances: Map<(Seq<char>, Seq<char>), i64>,
    owner_id: Seq<char>,
) -> bool {
    &&& ordered_rows(rows)
    &&& forall|sku: Seq<char>, balance: i64| #[trigger]
        has_row(rows, sku, balance) <==> balances.contains_key((owner_id, sku)) && balances[(
            owner_id,
            sku,
        )] == balance
}

/// The rows of an owner hold each balance of the owner once, under its stock-keeping
/// unit, and nothing else, in the order of the bytes of the stock-keeping units.
pub proof fn law_rows_of_an_owner_are_all_its_balances(
    rows: Seq<(String, i64)>,
    balances: Map<(Seq<char>, Seq<char>), i64>,
    owner_id: Seq<char>,
    sku: Seq<char>,
    i: int,
)
    requires
        are_rows_of_owner(rows, balances, owner_id),
    ensures
        balances.contains_key((owner_id, sku)) ==> exists|k: int|
            0 <= k < rows.len() && (#[trigger] rows[k]).0@ == sku && rows[k].1 == balances[(
                owner_id,
                sku,
            )],
        0 <= i < rows.len() ==> balances.contains_key((owner_id, rows[i].0@)) && balances[(
            owner_id,
            rows[i].0@,
        )] == rows[i].1,
        forall|a: int, b: int|
            0 <= a < b < rows.len() ==> crate::order::bytes_before(
                vstd::utf8::encode_utf8((#[trigger] rows[a]).0@),
                vstd::utf8::encode_utf8((#[trigger] rows[b]).0@),
            ),
{
    crate::order::law_rows_in_order(rows, rows);
    if balances.contains_key((owner_id, sku)) {
        assert(has_row(rows, sku, balances[(owner_id, sku)]));
    }
    if 0 <= i < rows.len() {
        assert(has_row(rows, rows[i].0@, rows[i].1));
    }
}

/// What answers say.
pub open spec fn result_views(results: Seq<ApplyResult>) -> Seq<ApplyResultView> {
    results.map_values(|result: ApplyResult| result@)
}

/// An operation of a batch has no answer.
#[derive(Clone, Copy, Debug, PartialEq, Eq, Structural)]
pub struct MissingResult;

impl Store {
    /// The parts of the state are well-formed.
    pub closed spec fn wf(&self) -> bool {
        &&& self.balances.wf()
        &&& self.published.wf()
        &&& self.dedup.wf()
        &&& self.dedup.shards() == DEDUP_SHARDS
        &&& self.published.shards() == self.balances.shards()
    }

    /// The number of shards of the balances.
    pub closed spec fn shards(&self) -> usize {
        self.balances.shards()
    }

    /// Asks for a batch to be reserved: each of its operations that nothing is
    /// known of is held for it, or else the batch leaves the state as it was.
    /// `stored` holds what the disk has under the key of each operation.
    pub fn preflight_batch(
        &mut self,
        operations: &[Operation],
        stored: &[Option<[u8; 32]>],
        reservation: u64,
    ) -> (result: Preflight)
        requires
            old(self).wf(),
            stored@.len() == operations@.len(),
        ensures
            final(self).wf(),
            final(self).shards() == old(self).shards(),
            final(self)@.balances == old(self)@.balances,
            final(self)@.published == old(self)@.published,
            (final(self)@.dedup, result@) == preflight(
                old(self)@.dedup,
                operation_views(operations@),
                stored@,
                reservation,
            ),
    {
        dedup::preflight_batch(&mut self.dedup, operations, stored, reservation)
    }

    /// Whether every applied balance on the way through the new operations of a batch
    /// can be held.
    pub fn can_apply_new(&self, operations: &[Operation], new: &[bool]) -> (result: bool)
        requires
            self.wf(),
        ensures
            result == ops_addable(self@.balances, new_ops(operation_views(operations@), new@)),
    {
        can_apply(&self.balances, select_new(operations, new).as_slice())
    }

    /// Whether every published balance on the way through the new operations of a
    /// batch can be held.
    pub fn can_publish_new(&self, operations: &[Operation], new: &[bool]) -> (result: bool)
        requires
            self.wf(),
        ensures
            result == ops_addable(self@.published, new_ops(operation_views(operations@), new@)),
    {
        can_apply(&self.published, select_new(operations, new).as_slice())
    }

    /// Applies operations one after another, and hands back the answers.
    pub fn apply_reserved_batch(&mut self, operations: &[Operation]) -> (results: Vec<ApplyResult>)
        requires
            old(self).wf(),
            ops_addable(old(self)@.balances, operation_views(operations@)),
        ensures
            final(self).wf(),
            final(self).shards() == old(self).shards(),
            final(self)@ == (StoreView {
                balances: add_ops(old(self)@.balances, operation_views(operations@)),
                ..old(self)@
            }),
            final(self)@ == store_applied(old(self)@, operation_views(operations@)),
            result_views(results@) == Seq::new(
                operations@.len(),
                |i: int| applied(old(self)@.balances, operation_views(operations@), i),
            ),
    {
        let ghost ops = operation_views(operations@);
        let ghost before = self@.balances;
        let ghost answers = Seq::new(ops.len(), |i: int| applied(before, ops, i));
        let mut results: Vec<ApplyResult> = Vec::new();
        let mut at: usize = 0;
        assert(ops.take(0) =~= Seq::empty());
        assert(result_views(results@) =~= answers.take(0));
        while at < operations.len()
            invariant
                at <= operations@.len(),
                ops == operation_views(operations@),
                before == old(self)@.balances,
                answers == Seq::new(ops.len(), |i: int| applied(before, ops, i)),
                ops_addable(before, ops),
                self.wf(),
                self.shards() == old(self).shards(),
                self.published == old(self).published,
                self.dedup == old(self).dedup,
                self.balances@ == add_ops(before, ops.take(at as int)),
                result_views(results@) == answers.take(at as int),
            decreases operations@.len() - at,
        {
            let operation: &Operation = &operations[at];
            let ghost so_far = results@;
            proof {
                assert(ops[at as int] == operation@);
                lemma_addable_prefix(before, ops, at as int);
                lemma_add_ops_step(before, ops, at as int);
            }
            let balance: i64 = apply_one(&mut self.balances, operation);
            results.push(
                ApplyResult {
                    operation_id: operation.operation_id.clone(),
                    status: ApplyStatus::Applied,
                    balance,
                },
            );
            proof {
                assert(result_views(results@) =~= result_views(so_far).push(applied(before, ops, at as int)));
                assert(answers.take(at + 1) =~= answers.take(at as int).push(answers[at as int]));
            }
            at = at + 1;
        }
        assert(ops.take(at as int) =~= ops);
        assert(answers.take(at as int) =~= answers);
        results
    }

    /// Applies the new operations of a batch one after another, and hands back an
    /// answer to each operation. The flags must speak of every operation.
    pub fn apply_preflight_batch(
        &mut self,
        operations: &[Operation],
        new: &[bool],
    ) -> (result: Result<Vec<ApplyResult>, MissingResult>)
        requires
            old(self).wf(),
            ops_addable(old(self)@.balances, new_ops(operation_views(operations@), new@)),
        ensures
            final(self).wf(),
            final(self).shards() == old(self).shards(),
            final(self)@ == (StoreView {
                balances: add_ops(
                    old(self)@.balances,
                    new_ops(operation_views(operations@), new@),
                ),
                ..old(self)@
            }),
            final(self)@ == store_applied(
                old(self)@,
                new_ops(operation_views(operations@), new@),
            ),
            match result {
                Ok(results) => new@.len() >= operations@.len() && result_views(results@) == Seq::new(
                    operations@.len(),
                    |i: int|
                        answered(
                            old(self)@.balances,
                            old(self)@.published,
                            operation_views(operations@),
                            new@,
                            i,
                        ),
                ),
                Err(_) => new@.len() < operations@.len(),
            },
    {
        let ghost ops = operation_views(operations@);
        let ghost before = self@.balances;
        let ghost fresh = new_ops(ops, new@);
        let ghost answers = Seq::new(
            ops.len(),
            |i: int| answered(before, self@.published, ops, new@, i),
        );
        let mut results: Vec<ApplyResult> = Vec::new();
        let mut at: usize = 0;
        assert(result_views(results@) =~= answers.take(0));
        while at < operations.len() && at < new.len()
            invariant
                at <= operations@.len(),
                at <= new@.len(),
                ops == operation_views(operations@),
                before == old(self)@.balances,
                fresh == new_ops(ops, new@),
                answers == Seq::new(
                    ops.len(),
                    |i: int| answered(before, old(self)@.published, ops, new@, i),
                ),
                ops_addable(before, fresh),
                self.wf(),
                self.shards() == old(self).shards(),
                self.published == old(self).published,
                self.dedup == old(self).dedup,
                self.balances@ == add_ops(before, selected(ops, new@, at as int)),
                result_views(results@) == answers.take(at as int),
            decreases operations@.len() - at,
        {
            let operation: &Operation = &operations[at];
            let ghost so_far = results@;
            proof {
                assert(ops[at as int] == operation@);
                assert(answers.take(at + 1) =~= answers.take(at as int).push(answers[at as int]));
            }
            if new[at] {
                proof {
                    let done = selected(ops, new@, at as int);
                    let then = selected(ops, new@, at + 1);
                    lemma_selected_prefix(ops, new@, at + 1, flagged(ops, new@));
                    lemma_selected_prefix(ops, new@, at as int, flagged(ops, new@));
                    assert(then == done.push(operation@));
                    assert(fresh.take(then.len() as int)[done.len() as int] == operation@);
                    lemma_addable_prefix(before, fresh, done.len() as int);
                    assert(then.drop_last() =~= done);
                }
                let balance: i64 = apply_one(&mut self.balances, operation);
                results.push(
                    ApplyResult {
                        operation_id: operation.operation_id.clone(),
                        status: ApplyStatus::Applied,
                        balance,
                    },
                );
            } else {
                let balance: i64 = balance_in(&self.published, &key_of(operation));
                results.push(
                    ApplyResult {
                        operation_id: operation.operation_id.clone(),
                        status: ApplyStatus::Duplicate,
                        balance,
                    },
                );
            }
            proof {
                assert(results@.last()@ == answers[at as int]);
                assert(result_views(results@) =~= result_views(so_far).push(answers[at as int]));
            }
            at = at + 1;
        }
        if new.len() < operations.len() {
            return Err(MissingResult);
        }
        assert(answers.take(at as int) =~= answers);
        Ok(results)
    }

    /// Ends a batch: its new operations are committed and their changes are
    /// published, or else they are forgotten.
    pub fn finish_batch(&mut self, operations: &[Operation], new: &[bool], committed: bool) -> (result:
        Finished)
        requires
            old(self).wf(),
            committed ==> ops_addable(
                old(self)@.published,
                new_ops(operation_views(operations@), new@),
            ),
        ensures
            final(self).wf(),
            final(self).shards() == old(self).shards(),
            final(self)@.balances == old(self)@.balances,
            final(self)@.published == if committed {
                add_ops(old(self)@.published, new_ops(operation_views(operations@), new@))
            } else {
                old(self)@.published
            },
            final(self)@ == store_finished(
                old(self)@,
                operation_views(operations@),
                new@,
                committed,
            ),
            (Finishing {
                memory: final(self)@.dedup,
                disk: result.disk_entries@,
                released: result.released@,
            }) == finished(old(self)@.dedup, operation_views(operations@), new@, committed),
    {
        let result: Finished = finish_reserved(&mut self.dedup, operations, new, committed);
        if committed {
            let fresh: Vec<Operation> = select_new(operations, new);
            self.publish(fresh.as_slice());
        }
        result
    }

    /// Publishes the changes of committed operations.
    fn publish(&mut self, operations: &[Operation])
        requires
            old(self).wf(),
            ops_addable(old(self)@.published, operation_views(operations@)),
        ensures
            final(self).wf(),
            final(self).shards() == old(self).shards(),
            final(self)@ == (StoreView {
                published: add_ops(old(self)@.published, operation_views(operations@)),
                ..old(self)@
            }),
    {
        let ghost ops = operation_views(operations@);
        let ghost before = self@.published;
        let mut at: usize = 0;
        assert(ops.take(0) =~= Seq::empty());
        while at < operations.len()
            invariant
                at <= operations@.len(),
                ops == operation_views(operations@),
                ops_addable(before, ops),
                self.wf(),
                self.shards() == old(self).shards(),
                self.balances == old(self).balances,
                self.dedup == old(self).dedup,
                self.published@ == add_ops(before, ops.take(at as int)),
            decreases operations@.len() - at,
        {
            proof {
                assert(ops[at as int] == operations@[at as int]@);
                lemma_addable_prefix(before, ops, at as int);
                lemma_add_ops_step(before, ops, at as int);
            }
            let _balance: i64 = apply_one(&mut self.published, &operations[at]);
            at = at + 1;
        }
        assert(ops.take(at as int) =~= ops);
    }

    /// The second half of restoring a reserved chunk of the log: where its new
    /// operations have come to the log on disk they are applied and committed, and
    /// otherwise they are forgotten.
    pub fn restore_chunk(&mut self, operations: &[Operation], new: &[bool], persisted: bool) -> (result:
        Finished)
        requires
            old(self).wf(),
            persisted ==> ops_addable(
                old(self)@.balances,
                new_ops(operation_views(operations@), new@),
            ),
            persisted ==> ops_addable(
                old(self)@.published,
                new_ops(operation_views(operations@), new@),
            ),
        ensures
            final(self).wf(),
            final(self).shards() == old(self).shards(),
            ({
                let fresh = new_ops(operation_views(operations@), new@);
                let end = finished(old(self)@.dedup, operation_views(operations@), new@, persisted);
                &&& final(self)@ == (StoreView {
                    balances: if persisted {
                        add_ops(old(self)@.balances, fresh)
                    } else {
                        old(self)@.balances
                    },
                    published: if persisted {
                        add_ops(old(self)@.published, fresh)
                    } else {
                        old(self)@.published
                    },
                    dedup: end.memory,
                })
                &&& final(self)@ == store_restored(
                    old(self)@,
                    operation_views(operations@),
                    new@,
                    persisted,
                )
                &&& result.disk_entries@ == end.disk
                &&& result.released@ == end.released
            }),
    {
        if persisted {
            let fresh: Vec<Operation> = select_new(operations, new);
            let _results: Vec<ApplyResult> = self.apply_reserved_batch(fresh.as_slice());
        }
        self.finish_batch(operations, new, persisted)
    }

    /// Lets go of what has come to the disk.
    pub fn retire(&mut self, entries: &[([u8; 32], [u8; 32])])
        requires
            old(self).wf(),
        ensures
            final(self).wf(),
            final(self).shards() == old(self).shards(),
            final(self)@ == (StoreView { dedup: retired(old(self)@.dedup, entries@), ..old(self)@ }),
    {
        retire_persisted(&mut self.dedup, entries);
    }

    /// The published balance of an owner and a stock-keeping unit.
    pub fn balance(&self, owner_id: String, sku: String) -> (balance: i64)
        requires
            self.wf(),
        ensures
            balance == balance_of(self@.published, (owner_id@, sku@)),
    {
        balance_in(&self.published, &BalanceKey { owner_id, sku })
    }

    /// The published balances under some keys.
    pub fn balances(&self, keys: &[(String, String)]) -> (balances: Vec<i64>)
        requires
            self.wf(),
        ensures
            balances@ == Seq::new(
                keys@.len(),
                |i: int| balance_of(self@.published, (keys@[i].0@, keys@[i].1@)),
            ),
    {
        let ghost all = Seq::new(
            keys@.len(),
            |i: int| balance_of(self@.published, (keys@[i].0@, keys@[i].1@)),
        );
        let mut balances: Vec<i64> = Vec::new();
        let mut at: usize = 0;
        assert(balances@ =~= all.take(0));
        while at < keys.len()
            invariant
                at <= keys@.len(),
                self.wf(),
                all == Seq::new(
                    keys@.len(),
                    |i: int| balance_of(self@.published, (keys@[i].0@, keys@[i].1@)),
                ),
                balances@ == all.take(at as int),
            decreases keys@.len() - at,
        {
            let key: BalanceKey = BalanceKey { owner_id: keys[at].0.clone(), sku: keys[at].1.clone() };
            balances.push(balance_in(&self.published, &key));
            assert(balances@ =~= all.take(at + 1));
            at = at + 1;
        }
        assert(all.take(at as int) =~= all);
        balances
    }
}

// ---------------------------------------------------------------- counts
/// A count, as far as it can be said.
pub open spec fn counted(count: nat) -> int {
    if count <= usize::MAX {
        count as int
    } else {
        usize::MAX as int
    }
}

/// The keys that are committed.
pub open spec fn committed_keys(dedup: Map<[u8; 32], DedupEntry>) -> Set<[u8; 32]> {
    dedup.dom().filter(|key: [u8; 32]| dedup[key] is Committed)
}

/// The keys that are reserved.
pub open spec fn pending_keys(dedup: Map<[u8; 32], DedupEntry>) -> Set<[u8; 32]> {
    dedup.dom().filter(|key: [u8; 32]| dedup[key] is Pending)
}

// ---------------------------------------------------------------- dumps
/// The entry of a snapshot for an entry of a table.
pub open spec fn dumped(entry: (BalanceKey, i64)) -> BalanceView {
    BalanceView { owner_id: entry.0.owner_id@, sku: entry.0.sku@, balance: entry.1 }
}

/// The balance that an entry of a snapshot is about.
pub open spec fn entry_key(entry: BalanceView) -> (Seq<char>, Seq<char>) {
    (entry.owner_id, entry.sku)
}

/// Whether entries of a snapshot are the balances, each of them once.
pub open spec fn lists(
    entries: Seq<BalanceView>,
    balances: Map<(Seq<char>, Seq<char>), i64>,
) -> bool {
    &&& forall|i: int|
        0 <= i < entries.len() ==> balances.contains_key(entry_key(#[trigger] entries[i]))
            && balances[entry_key(entries[i])] == entries[i].balance
    &&& forall|key: (Seq<char>, Seq<char>)| #[trigger]
        balances.contains_key(key) ==> exists|i: int|
            0 <= i < entries.len() && entry_key(#[trigger] entries[i]) == key
    &&& forall|i: int, j: int|
        0 <= i < j < entries.len() ==> entry_key(#[trigger] entries[i]) != entry_key(
            #[trigger] entries[j],
        )
}

/// Entries that list balances stand for them.
pub proof fn lemma_lists(
    entries: Seq<BalanceView>,
    balances: Map<(Seq<char>, Seq<char>), i64>,
)
    requires
        lists(entries, balances),
    ensures
        entry_map(entries) == balances,
    decreases entries.len(),
{
    if entries.len() == 0 {
        assert forall|key: (Seq<char>, Seq<char>)| !#[trigger] balances.contains_key(key) by {}
        assert(entry_map(entries) =~= balances);
    } else {
        let part = entries.drop_last();
        let last = entries.last();
        let rest = balances.remove(entry_key(last));
        let n = entries.len() - 1;
        assert forall|i: int| 0 <= i < part.len() implies rest.contains_key(
            entry_key(#[trigger] part[i]),
        ) && rest[entry_key(part[i])] == part[i].balance by {
            assert(entry_key(entries[i]) != entry_key(entries[n]));
        }
        assert forall|key: (Seq<char>, Seq<char>)| #[trigger] rest.contains_key(key) implies exists|
            i: int,
        | 0 <= i < part.len() && entry_key(#[trigger] part[i]) == key by {
            assert(balances.contains_key(key));
            let i = choose|i: int|
                0 <= i < entries.len() && entry_key(#[trigger] entries[i]) == key;
            assert(i < n);
            assert(part[i] == entries[i]);
        }
        assert forall|i: int, j: int| 0 <= i < j < part.len() implies entry_key(#[trigger] part[i])
            != entry_key(#[trigger] part[j]) by {
            assert(entry_key(entries[i]) != entry_key(entries[j]));
        }
        lemma_lists(part, rest);
        assert(entries[n] == last);
        assert(balances.contains_key(entry_key(last)));
        assert(entry_map(entries) =~= balances);
    }
}

/// What the first `n` shards hold, shard after shard.
spec fn dumped_parts(balances: &Balances, n: int) -> Seq<BalanceView>
    decreases n,
{
    if n <= 0 {
        Seq::empty()
    } else {
        dumped_parts(balances, n - 1) + balances.part(n - 1).entries().map_values(
            |entry: (BalanceKey, i64)| dumped(entry),
        )
    }
}

proof fn lemma_dumped_parts(balances: &Balances, n: int)
    requires
        balances.wf(),
        0 <= n <= balances.shards(),
    ensures
        ({
            let entries = dumped_parts(balances, n);
            &&& forall|i: int|
                0 <= i < entries.len() ==> balances@.contains_key(entry_key(#[trigger] entries[i]))
                    && balances@[entry_key(entries[i])] == entries[i].balance
                    && BalanceKey::shard_of(entry_key(entries[i]), balances.shards()) < n
            &&& forall|key: (Seq<char>, Seq<char>)| #[trigger]
                balances@.contains_key(key) && BalanceKey::shard_of(key, balances.shards()) < n
                    ==> exists|i: int|
                    0 <= i < entries.len() && entry_key(#[trigger] entries[i]) == key
            &&& forall|i: int, j: int|
                0 <= i < j < entries.len() ==> entry_key(#[trigger] entries[i]) != entry_key(
                    #[trigger] entries[j],
                )
        }),
    decreases n,
{
    balances.lemma_parts();
    let entries = dumped_parts(balances, n);
    if n > 0 {
        lemma_dumped_parts(balances, n - 1);
        let before = dumped_parts(balances, n - 1);
        let table = balances.part(n - 1);
        assert(table.wf());
        table.lemma_entries();
        let rows = table.entries();
        let here = rows.map_values(|entry: (BalanceKey, i64)| dumped(entry));
        let m = before.len() as int;
        assert forall|i: int| 0 <= i < rows.len() implies table@.contains_key(
            entry_key(#[trigger] here[i]),
        ) && table@[entry_key(here[i])] == here[i].balance by {
            assert(here[i] == dumped(rows[i]));
            lemma_entry_in_map(rows, i);
        }
        assert forall|i: int| 0 <= i < entries.len() implies balances@.contains_key(
            entry_key(#[trigger] entries[i]),
        ) && balances@[entry_key(entries[i])] == entries[i].balance && BalanceKey::shard_of(
            entry_key(entries[i]),
            balances.shards(),
        ) < n by {
            if i < m {
                assert(entries[i] == before[i]);
            } else {
                assert(entries[i] == here[i - m]);
                assert(balances.part(n - 1)@.contains_key(entry_key(here[i - m])));
            }
        }
        assert forall|key: (Seq<char>, Seq<char>)| #[trigger]
            balances@.contains_key(key) && BalanceKey::shard_of(key, balances.shards()) < n implies exists|
            i: int,
        | 0 <= i < entries.len() && entry_key(#[trigger] entries[i]) == key by {
            if BalanceKey::shard_of(key, balances.shards()) < n - 1 {
                let i = choose|i: int|
                    0 <= i < before.len() && entry_key(#[trigger] before[i]) == key;
                assert(entries[i] == before[i]);
            } else {
                assert(balances.part(n - 1)@.contains_key(key));
                let i = lemma_map_in_entries(rows, key);
                assert(entries[m + i] == here[i]);
                assert(here[i] == dumped(rows[i]));
            }
        }
        assert forall|i: int, j: int| 0 <= i < j < entries.len() implies entry_key(
            #[trigger] entries[i],
        ) != entry_key(#[trigger] entries[j]) by {
            if j < m {
                assert(entries[i] == before[i]);
                assert(entries[j] == before[j]);
            } else if i < m {
                assert(entries[i] == before[i]);
                assert(entries[j] == here[j - m]);
                assert(balances.part(n - 1)@.contains_key(entry_key(here[j - m])));
            } else {
                assert(entries[i] == here[i - m]);
                assert(entries[j] == here[j - m]);
                assert(rows[i - m].0@ != rows[j - m].0@);
            }
        }
    } else {
        balances.lemma_parts();
    }
}

/// The entries of a snapshot for balances.
fn dump_balances(balances: &Balances) -> (entries: Vec<BalanceSnapshot>)
    requires
        balances.wf(),
    ensures
        lists(balance_views(entries@), balances@),
{
    let mut entries: Vec<BalanceSnapshot> = Vec::new();
    let mut shard: usize = 0;
    assert(balance_views(entries@) =~= Seq::empty());
    while shard < balances.count()
        invariant
            shard <= balances.shards(),
            balances.wf(),
            balance_views(entries@) == dumped_parts(balances, shard as int),
        decreases balances.shards() - shard,
    {
        let table: &Table<BalanceKey, i64> = balances.table(shard);
        let ghost before = balance_views(entries@);
        let ghost here = table.entries().map_values(|entry: (BalanceKey, i64)| dumped(entry));
        let mut at: usize = 0;
        assert(before =~= before + here.take(0));
        while at < table.len()
            invariant
                at <= table.entries().len(),
                table.wf(),
                here == table.entries().map_values(|entry: (BalanceKey, i64)| dumped(entry)),
                balance_views(entries@) == before + here.take(at as int),
            decreases table.entries().len() - at,
        {
            let ghost so_far = entries@;
            let (key, balance): (&BalanceKey, i64) = table.at(at);
            entries.push(
                BalanceSnapshot { owner_id: key.owner_id.clone(), sku: key.sku.clone(), balance },
            );
            proof {
                assert(entries@.last()@ == here[at as int]);
                assert(balance_views(entries@) =~= balance_views(so_far).push(here[at as int]));
                assert(balance_views(entries@) =~= before + here.take(at + 1));
            }
            at = at + 1;
        }
        assert(here.take(at as int) =~= here);
        shard = shard + 1;
    }
    proof {
        balances.lemma_parts();
        lemma_dumped_parts(balances, balances.shards() as int);
        let all = dumped_parts(balances, balances.shards() as int);
        assert forall|key: (Seq<char>, Seq<char>)| #[trigger] balances@.contains_key(key) implies exists|
            i: int,
        | 0 <= i < all.len() && entry_key(#[trigger] all[i]) == key by {
            assert(BalanceKey::shard_of(key, balances.shards()) < balances.shards());
        }
    }
    entries
}

impl Store {
    /// Whether a restart can hold every balance on its way.
    pub fn can_start(recovered: &[Operation], snapshot: &Option<SnapshotData>) -> (result: bool)
        ensures
            result == ops_addable(
                snapshot_map(snapshot_view(*snapshot)),
                distinct_ops(operation_views(recovered@)),
            ),
    {
        let balances: Balances = load_balances(snapshot, 1);
        let kept: Vec<Operation> = keep_distinct(recovered);
        can_apply(&balances, kept.as_slice())
    }

    /// The state after a restart, and what the disk is to hold from it, batch after
    /// batch: the balances of the snapshot, and the operations of the log after it,
    /// each counted once.
    pub fn start(
        shard_count: usize,
        recovered: &[Operation],
        snapshot: &Option<SnapshotData>,
    ) -> (started: (Store, Vec<Vec<([u8; 32], [u8; 32])>>))
        requires
            shard_count > 0,
            ops_addable(
                snapshot_map(snapshot_view(*snapshot)),
                distinct_ops(operation_views(recovered@)),
            ),
        ensures
            started.0.wf(),
            started.0.shards() == shard_count,
            started.0@.balances == recovered_balances(
                snapshot_view(*snapshot),
                operation_views(recovered@),
            ),
            started.0@.published == started.0@.balances,
            started.0@.dedup == Map::<[u8; 32], DedupEntry>::empty(),
            started.0@ == store_started(snapshot_view(*snapshot), operation_views(recovered@)),
            batch_views(started.1@) == restart_batches(
                snapshot_view(*snapshot),
                operation_views(recovered@),
            ),
    {
        let kept: Vec<Operation> = keep_distinct(recovered);
        let mut store: Store = Store {
            balances: load_balances(snapshot, shard_count),
            published: load_balances(snapshot, shard_count),
            dedup: Dedup::new(DEDUP_SHARDS),
        };
        let _results: Vec<ApplyResult> = store.apply_reserved_batch(kept.as_slice());
        store.publish(kept.as_slice());
        let batches: Vec<Vec<([u8; 32], [u8; 32])>> = batch_entries(snapshot, kept.as_slice());
        (store, batches)
    }

    /// A snapshot of the applied balances up to a position of the replicated log.
    pub fn snapshot(&self, sequence: u64, writer_epoch: u64) -> (snapshot: SnapshotData)
        requires
            self.wf(),
        ensures
            snapshot.version == 3,
            snapshot.sequence == sequence,
            snapshot.writer_epoch == writer_epoch,
            snapshot.dedup@.len() == 0,
            lists(snapshot@.balances, self@.balances),
    {
        SnapshotData {
            version: 3,
            sequence,
            balances: dump_balances(&self.balances),
            dedup: Vec::new(),
            writer_epoch,
        }
    }

    /// How many identifiers are committed and not yet on the disk, how many are
    /// reserved, and how many balances are published.
    pub fn runtime_cardinality(&self) -> (counts: (usize, usize, usize))
        requires
            self.wf(),
        ensures
            counts.0 == counted(committed_keys(self@.dedup).len()),
            counts.1 == counted(pending_keys(self@.dedup).len()),
            counts.2 == counted(self@.published.dom().len()),
    {
        let ghost is_committed = |entry: DedupEntry| entry is Committed;
        let ghost is_pending = |entry: DedupEntry| entry is Pending;
        let mut committed: usize = 0;
        let mut pending: usize = 0;
        let mut shard: usize = 0;
        while shard < self.dedup.count()
            invariant
                shard <= self.dedup.shards(),
                self.wf(),
                is_committed == (|entry: DedupEntry| entry is Committed),
                is_pending == (|entry: DedupEntry| entry is Pending),
                committed == counted(self.dedup.count_parts(is_committed, shard as int)),
                pending == counted(self.dedup.count_parts(is_pending, shard as int)),
            decreases self.dedup.shards() - shard,
        {
            let table: &Table<DedupKey, DedupEntry> = self.dedup.table(shard);
            let ghost entries = table.entries();
            let ghost committed_before = self.dedup.count_parts(is_committed, shard as int);
            let ghost pending_before = self.dedup.count_parts(is_pending, shard as int);
            let mut at: usize = 0;
            while at < table.len()
                invariant
                    at <= entries.len(),
                    table.wf(),
                    entries == table.entries(),
                    is_committed == (|entry: DedupEntry| entry is Committed),
                    is_pending == (|entry: DedupEntry| entry is Pending),
                    committed == counted(
                        committed_before + count_entries(entries, is_committed, at as int),
                    ),
                    pending == counted(
                        pending_before + count_entries(entries, is_pending, at as int),
                    ),
                decreases entries.len() - at,
            {
                let (_key, entry): (&DedupKey, DedupEntry) = table.at(at);
                assert(entry == entries[at as int].1);
                match entry {
                    DedupEntry::Committed(_) => {
                        committed = committed.saturating_add(1);
                    },
                    DedupEntry::Pending { .. } => {
                        pending = pending.saturating_add(1);
                    },
                }
                at = at + 1;
            }
            shard = shard + 1;
        }
        proof {
            self.dedup.lemma_count_parts(is_committed);
            self.dedup.lemma_count_parts(is_pending);
            assert(self.dedup.keys_where(is_committed) =~= committed_keys(self@.dedup));
            assert(self.dedup.keys_where(is_pending) =~= pending_keys(self@.dedup));
        }
        (committed, pending, self.published.len())
    }

    /// The published balances of an owner, in the order of the stock-keeping units.
    pub fn balances_by_owner(&self, owner_id: &String) -> (rows: Vec<(String, i64)>)
        requires
            self.wf(),
        ensures
            ordered_rows(rows@),
            forall|sku: Seq<char>, balance: i64| #[trigger]
                has_row(rows@, sku, balance) <==> self@.published.contains_key((owner_id@, sku))
                    && self@.published[(owner_id@, sku)] == balance,
            are_rows_of_owner(rows@, self@.published, owner_id@),
    {
        let entries: Vec<BalanceSnapshot> = dump_balances(&self.published);
        let ghost views = balance_views(entries@);
        let mut rows: Vec<(String, i64)> = Vec::new();
        let ghost mut origin: Seq<int> = Seq::empty();
        let mut at: usize = 0;
        while at < entries.len()
            invariant
                at <= entries@.len(),
                views == balance_views(entries@),
                origin.len() == rows@.len(),
                forall|p: int|
                    0 <= p < origin.len() ==> 0 <= #[trigger] origin[p] < at && views[origin[p]].owner_id
                        == owner_id@ && views[origin[p]].sku == rows@[p].0@
                        && views[origin[p]].balance == rows@[p].1,
                forall|p: int, q: int|
                    0 <= p < q < origin.len() ==> #[trigger] origin[p] < #[trigger] origin[q],
                forall|i: int|
                    0 <= i < at && (#[trigger] views[i]).owner_id == owner_id@ ==> origin.contains(i),
            decreases entries@.len() - at,
        {
            let entry: &BalanceSnapshot = &entries[at];
            assert(views[at as int] == entry@);
            if entry.owner_id == *owner_id {
                rows.push((entry.sku.clone(), entry.balance));
                proof {
                    let before = origin;
                    origin = origin.push(at as int);
                    assert forall|i: int|
                        0 <= i < at + 1 && (#[trigger] views[i]).owner_id == owner_id@ implies origin.contains(
                        i,
                    ) by {
                        if i < at {
                            let p = choose|p: int| 0 <= p < before.len() && before[p] == i;
                            assert(origin[p] == i);
                        } else {
                            assert(origin[before.len() as int] == i);
                        }
                    }
                }
            }
            at = at + 1;
        }
        proof {
            assert forall|p: int, q: int| 0 <= p < q < rows@.len() implies (#[trigger] row_bytes(
                rows@,
                p,
            )) != (#[trigger] row_bytes(rows@, q)) by {
                let i = origin[p];
                let j = origin[q];
                assert(entry_key(views[i]) != entry_key(views[j]));
                lemma_encoding_tells(rows@[p].0@, rows@[q].0@);
            }
            assert forall|sku: Seq<char>, balance: i64| #[trigger]
                has_row(rows@, sku, balance) <==> self@.published.contains_key((owner_id@, sku))
                    && self@.published[(owner_id@, sku)] == balance by {
                if has_row(rows@, sku, balance) {
                    let p = choose|p: int|
                        0 <= p < rows@.len() && (#[trigger] rows@[p]).0@ == sku && rows@[p].1
                            == balance;
                    let i = origin[p];
                    assert(entry_key(views[i]) == (owner_id@, sku));
                }
                if self@.published.contains_key((owner_id@, sku)) && self@.published[(
                    owner_id@,
                    sku,
                )] == balance {
                    let i = choose|i: int|
                        0 <= i < views.len() && entry_key(#[trigger] views[i]) == (owner_id@, sku);
                    assert(origin.contains(i));
                    let p = choose|p: int| 0 <= p < origin.len() && origin[p] == i;
                    assert(rows@[p].0@ == sku);
                }
            }
        }
        let sorted: Vec<(String, i64)> = sort_rows(rows.as_slice());
        proof {
            assert forall|sku: Seq<char>, balance: i64| #[trigger]
                has_row(sorted@, sku, balance) <==> self@.published.contains_key((owner_id@, sku))
                    && self@.published[(owner_id@, sku)] == balance by {
                assert(has_row(rows@, sku, balance) <==> has_row(sorted@, sku, balance));
            }
        }
        sorted
    }
}

/// Texts with the same bytes are the same.
proof fn lemma_encoding_tells(a: Seq<char>, b: Seq<char>)
    ensures
        encode_utf8(a) == encode_utf8(b) ==> a == b,
{
    encode_utf8_decode_utf8(a);
    encode_utf8_decode_utf8(b);
}

} // verus!
