//! What a restart makes of a snapshot and of the operations in the log after it.

use vstd::prelude::*;

use crate::balances::{add_ops, BalanceKey, Balances};
use crate::dedup::DedupKey;
use crate::digest::{fingerprint, id_key, op_fingerprint, operation_id_hash};
use crate::model::{operation_views, Operation, OperationView};
use crate::snapshot::{
    balance_views, BalanceSnapshot, BalanceView, DedupSnapshot, DedupView, SnapshotData, SnapshotView,
};
use crate::table::Table;

verus! {

/// The most entries that are handed to the disk at once.
pub const DISK_BATCH: usize = 100_000;

// ---------------------------------------------------------------- balances
/// The balances that entries of a snapshot make, the last one for a key counting.
pub open spec fn entry_map(entries: Seq<BalanceView>) -> Map<(Seq<char>, Seq<char>), i64>
    decreases entries.len(),
{
    if entries.len() == 0 {
        Map::empty()
    } else {
        let last = entries.last();
        entry_map(entries.drop_last()).insert((last.owner_id, last.sku), last.balance)
    }
}

/// The balances of a snapshot; without one there are none.
pub open spec fn snapshot_map(snapshot: Option<SnapshotView>) -> Map<(Seq<char>, Seq<char>), i64> {
    match snapshot {
        Some(snapshot) => entry_map(snapshot.balances),
        None => Map::empty(),
    }
}

/// What an optional snapshot says.
pub open spec fn snapshot_view(snapshot: Option<SnapshotData>) -> Option<SnapshotView> {
    match snapshot {
        Some(snapshot) => Some(snapshot@),
        None => None,
    }
}

/// The balances of a snapshot, in shards.
pub fn load_balances(snapshot: &Option<SnapshotData>, shard_count: usize) -> (balances: Balances)
    requires
        shard_count > 0,
    ensures
        balances.wf(),
        balances.shards() == shard_count,
        balances@ == snapshot_map(snapshot_view(*snapshot)),
{
    let mut balances: Balances = Balances::new(shard_count);
    match snapshot {
        None => {},
        Some(snapshot) => {
            let ghost entries = snapshot@.balances;
            let mut at: usize = 0;
            assert(entries.take(0) =~= Seq::empty());
            while at < snapshot.balances.len()
                invariant
                    at <= snapshot.balances@.len(),
                    entries == balance_views(snapshot.balances@),
                    balances.wf(),
                    balances.shards() == shard_count,
                    balances@ == entry_map(entries.take(at as int)),
                decreases snapshot.balances@.len() - at,
            {
                let entry: &BalanceSnapshot = &snapshot.balances[at];
                assert(entries.take(at + 1).drop_last() =~= entries.take(at as int));
                assert(entries.take(at + 1).last() == entry@);
                balances.insert(
                    BalanceKey { owner_id: entry.owner_id.clone(), sku: entry.sku.clone() },
                    entry.balance,
                );
                at = at + 1;
            }
            assert(entries.take(at as int) =~= entries);
        },
    }
    balances
}

// ---------------------------------------------------------------- the log after the snapshot
/// Whether one of the first `n` operations has this deduplication key.
pub open spec fn has_key(ops: Seq<OperationView>, n: int, key: [u8; 32]) -> bool {
    exists|j: int| 0 <= j < n && id_key((#[trigger] ops[j]).operation_id) == key
}

/// Those of the first `n` operations whose key no earlier one has.
pub open spec fn distinct(ops: Seq<OperationView>, n: int) -> Seq<OperationView>
    decreases n,
{
    if n <= 0 {
        Seq::empty()
    } else if has_key(ops, n - 1, id_key(ops[n - 1].operation_id)) {
        distinct(ops, n - 1)
    } else {
        distinct(ops, n - 1).push(ops[n - 1])
    }
}

/// The operations of a log, each counted once.
pub open spec fn distinct_ops(ops: Seq<OperationView>) -> Seq<OperationView> {
    distinct(ops, ops.len() as int)
}

/// The operations of a log, each counted once.
pub fn keep_distinct(operations: &[Operation]) -> (kept: Vec<Operation>)
    ensures
        operation_views(kept@) == distinct_ops(operation_views(operations@)),
{
    let ghost ops = operation_views(operations@);
    let mut seen: Table<DedupKey, ()> = Table::new();
    let mut kept: Vec<Operation> = Vec::new();
    let mut at: usize = 0;
    assert(operation_views(kept@) =~= distinct(ops, 0));
    while at < operations.len()
        invariant
            at <= operations@.len(),
            ops == operation_views(operations@),
            seen.wf(),
            forall|key: [u8; 32]| #[trigger] seen@.contains_key(key) <==> has_key(ops, at as int, key),
            operation_views(kept@) == distinct(ops, at as int),
        decreases operations@.len() - at,
    {
        let operation: &Operation = &operations[at];
        let key: DedupKey = DedupKey { bytes: operation_id_hash(operation.operation_id.as_str()) };
        proof {
            assert(ops[at as int] == operation@);
            assert forall|k: [u8; 32]| #[trigger] has_key(ops, at + 1, k) <==> has_key(
                ops,
                at as int,
                k,
            ) || k == key@ by {
                if has_key(ops, at as int, k) {
                    let j = choose|j: int|
                        0 <= j < at && id_key((#[trigger] ops[j]).operation_id) == k;
                    assert(id_key(ops[j].operation_id) == k);
                }
                assert(id_key(ops[at as int].operation_id) == key@);
            }
        }
        if seen.get(&key).is_none() {
            let ghost before = kept@;
            seen.insert(key, ());
            kept.push(operation.clone());
            assert(operation_views(kept@) =~= operation_views(before).push(operation@));
        }
        at = at + 1;
    }
    kept
}

/// The balances after a restart: those of the snapshot, and the operations of the
/// log after it, each counted once.
pub open spec fn recovered_balances(
    snapshot: Option<SnapshotView>,
    recovered: Seq<OperationView>,
) -> Map<(Seq<char>, Seq<char>), i64> {
    add_ops(snapshot_map(snapshot), distinct_ops(recovered))
}

// ---------------------------------------------------------------- what goes to the disk
/// What the disk is to hold of a snapshot.
pub open spec fn snapshot_entries(snapshot: Option<SnapshotView>) -> Seq<([u8; 32], [u8; 32])> {
    match snapshot {
        Some(snapshot) => snapshot.dedup.map_values(
            |entry: DedupView| (id_key(entry.operation_id), entry.fingerprint),
        ),
        None => Seq::empty(),
    }
}

/// What the disk is to hold of operations.
pub open spec fn op_entries(ops: Seq<OperationView>) -> Seq<([u8; 32], [u8; 32])> {
    ops.map_values(|op: OperationView| (id_key(op.operation_id), op_fingerprint(op)))
}

/// The full batches of entries.
pub open spec fn full_batches(entries: Seq<([u8; 32], [u8; 32])>) -> Seq<Seq<([u8; 32], [u8; 32])>> {
    Seq::new(
        entries.len() / DISK_BATCH as nat,
        |i: int| entries.subrange(i * DISK_BATCH, i * DISK_BATCH + DISK_BATCH),
    )
}

/// What is left after the full batches.
pub open spec fn rest_batch(entries: Seq<([u8; 32], [u8; 32])>) -> Seq<([u8; 32], [u8; 32])> {
    entries.skip((entries.len() / DISK_BATCH as nat) * DISK_BATCH as int)
}

/// What a restart hands to the disk, batch after batch: the full batches of the
/// snapshot and then of the log, and what is left of the log and of the snapshot.
pub open spec fn restart_batches(
    snapshot: Option<SnapshotView>,
    recovered: Seq<OperationView>,
) -> Seq<Seq<([u8; 32], [u8; 32])>> {
    let first = snapshot_entries(snapshot);
    let second = op_entries(distinct_ops(recovered));
    (full_batches(first) + full_batches(second)).push(rest_batch(second)).push(rest_batch(first))
}

/// What batches say.
pub open spec fn batch_views(batches: Seq<Vec<([u8; 32], [u8; 32])>>) -> Seq<
    Seq<([u8; 32], [u8; 32])>,
> {
    batches.map_values(|batch: Vec<([u8; 32], [u8; 32])>| batch@)
}

/// Entries that are being put into batches.
pub struct Batcher {
    full: Vec<Vec<([u8; 32], [u8; 32])>>,
    rest: Vec<([u8; 32], [u8; 32])>,
    entries: Ghost<Seq<([u8; 32], [u8; 32])>>,
}

impl Batcher {
    /// The entries so far.
    pub closed spec fn entries(&self) -> Seq<([u8; 32], [u8; 32])> {
        self.entries@
    }

    pub closed spec fn wf(&self) -> bool {
        &&& batch_views(self.full@) == full_batches(self.entries@)
        &&& self.rest@ == rest_batch(self.entries@)
        &&& self.rest@.len() < DISK_BATCH
    }

    pub fn new() -> (batcher: Self)
        ensures
            batcher.wf(),
            batcher.entries() == Seq::<([u8; 32], [u8; 32])>::empty(),
    {
        let batcher: Batcher = Batcher {
            full: Vec::new(),
            rest: Vec::new(),
            entries: Ghost(Seq::empty()),
        };
        assert(batch_views(batcher.full@) =~= full_batches(batcher.entries@));
        assert(batcher.rest@ =~= rest_batch(batcher.entries@));
        batcher
    }

    /// Adds an entry.
    pub fn push(&mut self, entry: ([u8; 32], [u8; 32]))
        requires
            old(self).wf(),
        ensures
            final(self).wf(),
            final(self).entries() == old(self).entries().push(entry),
    {
        let ghost before = self.entries@;
        let ghost after = before.push(entry);
        let ghost q = before.len() / DISK_BATCH as nat;
        let ghost full_before = self.full@;
        self.entries = Ghost(after);
        self.rest.push(entry);
        assert(before.len() == q * DISK_BATCH + before.skip(q * DISK_BATCH as int).len());
        if self.rest.len() == DISK_BATCH {
            let mut batch: Vec<([u8; 32], [u8; 32])> = Vec::new();
            batch.append(&mut self.rest);
            self.full.push(batch);
            proof {
                assert(after.len() == (q + 1) * DISK_BATCH);
                assert(after.len() / DISK_BATCH as nat == q + 1);
                assert(batch@ =~= after.subrange(q * DISK_BATCH, q * DISK_BATCH + DISK_BATCH));
                lemma_batches_kept(before, entry);
                assert(full_batches(after) =~= full_batches(before).push(batch@));
                assert(batch_views(self.full@) =~= batch_views(full_before).push(batch@));
                assert(self.rest@ =~= rest_batch(after));
            }
        } else {
            proof {
                assert(after.len() / DISK_BATCH as nat == q);
                lemma_batches_kept(before, entry);
                assert(batch_views(self.full@) =~= full_batches(after));
                assert(self.rest@ =~= rest_batch(after));
            }
        }
    }

    /// The full batches and what is left.
    pub fn take(self) -> (batches: (
        Vec<Vec<([u8; 32], [u8; 32])>>,
        Vec<([u8; 32], [u8; 32])>,
    ))
        requires
            self.wf(),
        ensures
            batch_views(batches.0@) == full_batches(self.entries()),
            batches.1@ == rest_batch(self.entries()),
    {
        (self.full, self.rest)
    }
}

proof fn lemma_batches_kept(before: Seq<([u8; 32], [u8; 32])>, entry: ([u8; 32], [u8; 32]))
    ensures
        forall|i: int|
            0 <= i < before.len() / DISK_BATCH as nat ==> #[trigger] full_batches(before)[i]
                == before.push(entry).subrange(i * DISK_BATCH, i * DISK_BATCH + DISK_BATCH),
{
    let after = before.push(entry);
    assert forall|i: int| 0 <= i < before.len() / DISK_BATCH as nat implies #[trigger] full_batches(
        before,
    )[i] == after.subrange(i * DISK_BATCH, i * DISK_BATCH + DISK_BATCH) by {
        assert(before.subrange(i * DISK_BATCH, i * DISK_BATCH + DISK_BATCH) =~= after.subrange(
            i * DISK_BATCH,
            i * DISK_BATCH + DISK_BATCH,
        ));
    }
}

/// What a restart hands to the disk. `kept` holds the operations of the log after
/// the snapshot, each counted once.
pub fn batch_entries(snapshot: &Option<SnapshotData>, kept: &[Operation]) -> (batches: Vec<
    Vec<([u8; 32], [u8; 32])>,
>)
    ensures
        ({
            let first = snapshot_entries(snapshot_view(*snapshot));
            let second = op_entries(operation_views(kept@));
            batch_views(batches@) == (full_batches(first) + full_batches(second)).push(
                rest_batch(second),
            ).push(rest_batch(first))
        }),
{
    let mut first: Batcher = Batcher::new();
    match snapshot {
        None => {},
        Some(snapshot) => {
            let ghost all = snapshot_entries(Some(snapshot@));
            let mut at: usize = 0;
            while at < snapshot.dedup.len()
                invariant
                    at <= snapshot.dedup@.len(),
                    all == snapshot_entries(Some(snapshot@)),
                    first.wf(),
                    first.entries() == all.take(at as int),
                decreases snapshot.dedup@.len() - at,
            {
                let entry: &DedupSnapshot = &snapshot.dedup[at];
                first.push((operation_id_hash(entry.operation_id.as_str()), entry.fingerprint));
                assert(all.take(at + 1) =~= all.take(at as int).push(all[at as int]));
                at = at + 1;
            }
            assert(all.take(at as int) =~= all);
        },
    }
    assert(first.entries() =~= snapshot_entries(snapshot_view(*snapshot)));
    let mut second: Batcher = Batcher::new();
    let ghost all = op_entries(operation_views(kept@));
    let mut at: usize = 0;
    while at < kept.len()
        invariant
            at <= kept@.len(),
            all == op_entries(operation_views(kept@)),
            second.wf(),
            second.entries() == all.take(at as int),
        decreases kept@.len() - at,
    {
        let operation: &Operation = &kept[at];
        second.push((operation_id_hash(operation.operation_id.as_str()), fingerprint(operation)));
        assert(all.take(at + 1) =~= all.take(at as int).push(all[at as int]));
        at = at + 1;
    }
    assert(all.take(at as int) =~= all);
    let ghost first_entries = first.entries();
    let ghost second_entries = second.entries();
    let (mut batches, first_rest) = first.take();
    let (mut more, second_rest) = second.take();
    batches.append(&mut more);
    batches.push(second_rest);
    batches.push(first_rest);
    assert(batch_views(batches@) =~= (full_batches(first_entries) + full_batches(
        second_entries,
    )).push(rest_batch(second_entries)).push(rest_batch(first_entries)));
    batches
}

// ---------------------------------------------------------------- laws
/// An operation that stands in the log more than once counts once: a record whose
/// identifier the log already holds changes nothing at a restart.
pub proof fn law_repeated_record_changes_nothing(
    snapshot: Option<SnapshotView>,
    recovered: Seq<OperationView>,
    again: OperationView,
)
    requires
        has_key(recovered, recovered.len() as int, id_key(again.operation_id)),
    ensures
        recovered_balances(snapshot, recovered.push(again)) == recovered_balances(
            snapshot,
            recovered,
        ),
{
    let more = recovered.push(again);
    let n = recovered.len() as int;
    lemma_distinct_prefix(recovered, more, n);
    let j = choose|j: int|
        0 <= j < n && id_key((#[trigger] recovered[j]).operation_id) == id_key(again.operation_id);
    assert(id_key(more[j].operation_id) == id_key(more[n].operation_id));
    assert(has_key(more, n, id_key(more[n].operation_id)));
}

/// Which operations of a log are kept depends on what comes before them alone.
pub proof fn lemma_distinct_prefix(a: Seq<OperationView>, b: Seq<OperationView>, n: int)
    requires
        0 <= n <= a.len(),
        n <= b.len(),
        forall|i: int| 0 <= i < n ==> a[i] == b[i],
    ensures
        distinct(a, n) == distinct(b, n),
        forall|key: [u8; 32]| #[trigger] has_key(a, n, key) == has_key(b, n, key),
    decreases n,
{
    if n > 0 {
        lemma_distinct_prefix(a, b, n - 1);
    }
    assert forall|key: [u8; 32]| #[trigger] has_key(a, n, key) == has_key(b, n, key) by {
        if has_key(a, n, key) {
            let j = choose|j: int| 0 <= j < n && id_key((#[trigger] a[j]).operation_id) == key;
            assert(id_key(b[j].operation_id) == key);
        }
        if has_key(b, n, key) {
            let j = choose|j: int| 0 <= j < n && id_key((#[trigger] b[j]).operation_id) == key;
            assert(id_key(a[j].operation_id) == key);
        }
    }
}

/// Whether an entry is in one of the batches.
pub open spec fn is_handed_over(
    batches: Seq<Seq<([u8; 32], [u8; 32])>>,
    entry: ([u8; 32], [u8; 32]),
) -> bool {
    exists|b: int| 0 <= b < batches.len() && (#[trigger] batches[b]).contains(entry)
}

proof fn lemma_batched(entries: Seq<([u8; 32], [u8; 32])>, i: int)
    requires
        0 <= i < entries.len(),
    ensures
        is_handed_over(full_batches(entries), entries[i]) || rest_batch(entries).contains(entries[i]),
{
    let size = DISK_BATCH as int;
    let full = entries.len() / DISK_BATCH as nat;
    let b = i / size;
    assert(b * size <= i < b * size + size);
    if b < full {
        assert(full_batches(entries)[b] == entries.subrange(b * size, b * size + size));
        assert(full_batches(entries)[b][i - b * size] == entries[i]);
        assert(full_batches(entries)[b].contains(entries[i]));
    } else {
        assert(full * size <= i);
        assert(rest_batch(entries)[i - full * size] == entries[i]);
    }
}

/// A restart hands the identifier of every operation of the log to the disk, and
/// that of every entry of the snapshot.
pub proof fn law_restart_hands_everything_to_the_disk(
    snapshot: Option<SnapshotView>,
    recovered: Seq<OperationView>,
    entry: ([u8; 32], [u8; 32]),
)
    requires
        snapshot_entries(snapshot).contains(entry) || op_entries(distinct_ops(recovered)).contains(
            entry,
        ),
    ensures
        is_handed_over(restart_batches(snapshot, recovered), entry),
{
    let first = snapshot_entries(snapshot);
    let second = op_entries(distinct_ops(recovered));
    let all = restart_batches(snapshot, recovered);
    let n = full_batches(first).len() as int;
    let m = full_batches(second).len() as int;
    if first.contains(entry) {
        let i = choose|i: int| 0 <= i < first.len() && first[i] == entry;
        lemma_batched(first, i);
        if is_handed_over(full_batches(first), entry) {
            let b = choose|b: int| 0 <= b < n && (#[trigger] full_batches(first)[b]).contains(entry);
            assert(all[b] == full_batches(first)[b]);
        } else {
            assert(all[n + m + 1] == rest_batch(first));
        }
    } else {
        let i = choose|i: int| 0 <= i < second.len() && second[i] == entry;
        lemma_batched(second, i);
        if is_handed_over(full_batches(second), entry) {
            let b = choose|b: int| 0 <= b < m && (#[trigger] full_batches(second)[b]).contains(entry);
            assert(all[n + b] == full_batches(second)[b]);
        } else {
            assert(all[n + m] == rest_batch(second));
        }
    }
}

/// Each entry of a snapshot sets the balance of its owner and stock-keeping unit, over
/// whatever an earlier one said, and no other; without a snapshot there are none.
pub proof fn law_snapshot_entries_set_balances(
    entries: Seq<BalanceView>,
    entry: BalanceView,
    owner_id: Seq<char>,
    sku: Seq<char>,
)
    ensures
        ({
            let before = entry_map(entries);
            let after = entry_map(entries.push(entry));
            let key = (owner_id, sku);
            &&& after.contains_key((entry.owner_id, entry.sku)) && after[(entry.owner_id, entry.sku)]
                == entry.balance
            &&& owner_id != entry.owner_id || sku != entry.sku ==> after.contains_key(key)
                == before.contains_key(key) && after[key] == before[key]
        }),
        !entry_map(Seq::empty()).contains_key((owner_id, sku)),
        !snapshot_map(None).contains_key((owner_id, sku)),
        forall|snapshot: SnapshotView| #[trigger]
            snapshot_map(Some(snapshot)) == entry_map(snapshot.balances),
{
    assert(entries.push(entry).drop_last() =~= entries);
}

/// An operation of the log is kept exactly where no earlier one has the key of its
/// identifier, behind those that are kept before it.
pub proof fn law_log_keeps_the_first_of_each_identifier(
    recovered: Seq<OperationView>,
    op: OperationView,
)
    ensures
        distinct_ops(Seq::empty()).len() == 0,
        (exists|j: int|
            0 <= j < recovered.len() && id_key((#[trigger] recovered[j]).operation_id) == id_key(
                op.operation_id,
            )) ==> distinct_ops(recovered.push(op)) == distinct_ops(recovered),
        (forall|j: int|
            0 <= j < recovered.len() ==> id_key((#[trigger] recovered[j]).operation_id) != id_key(
                op.operation_id,
            )) ==> distinct_ops(recovered.push(op)) == distinct_ops(recovered).push(op),
{
    let all = recovered.push(op);
    let n = recovered.len() as int;
    lemma_distinct_prefix(all, recovered, n);
    assert(all[n] == op);
    assert(has_key(all, n, id_key(op.operation_id)) == has_key(
        recovered,
        n,
        id_key(op.operation_id),
    ));
}

/// Entries are cut into batches of a hundred thousand in their order, with what is
/// left over in a smaller one: nothing is left out and nothing stands twice.
pub proof fn law_batches_hold_the_entries_in_order(entries: Seq<([u8; 32], [u8; 32])>)
    ensures
        ({
            let full = full_batches(entries);
            let rest = rest_batch(entries);
            &&& 100_000 * full.len() + rest.len() == entries.len()
            &&& rest.len() < 100_000
            &&& forall|i: int| 0 <= i < full.len() ==> (#[trigger] full[i]).len() == 100_000
            &&& forall|i: int, k: int|
                0 <= i < full.len() && 0 <= k < 100_000 ==> #[trigger] full[i][k] == entries[100_000
                    * i + k]
            &&& forall|k: int|
                0 <= k < rest.len() ==> #[trigger] rest[k] == entries[100_000 * full.len() + k]
        }),
{
    let n = entries.len() as int;
    let full = full_batches(entries);
    assert(full.len() == n / 100_000);
    assert forall|i: int| 0 <= i < full.len() implies (#[trigger] full[i]).len() == 100_000 by {
        assert(full[i] == entries.subrange(i * DISK_BATCH, i * DISK_BATCH + DISK_BATCH));
    }
}

/// What the disk is to hold of an operation is the key of its identifier with its
/// fingerprint, and of an entry of a snapshot, with the fingerprint it says.
pub proof fn law_entries_are_keys_and_fingerprints(
    ops: Seq<OperationView>,
    snapshot: SnapshotView,
    i: int,
)
    ensures
        op_entries(ops).len() == ops.len(),
        0 <= i < ops.len() ==> op_entries(ops)[i] == (
            id_key(ops[i].operation_id),
            op_fingerprint(ops[i]),
        ),
        snapshot_entries(Some(snapshot)).len() == snapshot.dedup.len(),
        0 <= i < snapshot.dedup.len() ==> snapshot_entries(Some(snapshot))[i] == (
            id_key(snapshot.dedup[i].operation_id),
            snapshot.dedup[i].fingerprint,
        ),
        snapshot_entries(None).len() == 0,
{
}

/// A restart without a log brings back the balances of the snapshot, and one more
/// operation in the log counts by its change where its identifier is new to the log.
pub proof fn law_restart_goes_on_from_the_snapshot(
    snapshot: Option<SnapshotView>,
    recovered: Seq<OperationView>,
    op: OperationView,
)
    requires
        forall|j: int|
            0 <= j < recovered.len() ==> id_key((#[trigger] recovered[j]).operation_id) != id_key(
                op.operation_id,
            ),
    ensures
        recovered_balances(snapshot, Seq::empty()) == snapshot_map(snapshot),
        recovered_balances(snapshot, recovered.push(op)) == add_ops(
            recovered_balances(snapshot, recovered),
            seq![op],
        ),
{
    law_log_keeps_the_first_of_each_identifier(recovered, op);
    let kept = distinct_ops(recovered);
    crate::balances::law_operations_are_applied_one_after_another(
        snapshot_map(snapshot),
        kept,
        seq![op],
    );
    assert(kept + seq![op] =~= kept.push(op));
}

/// What is said of batches is said of each, in their order, and of a snapshot where
/// there is one.
pub proof fn law_batches_are_said_one_by_one(
    batches: Seq<Vec<([u8; 32], [u8; 32])>>,
    snapshot: SnapshotData,
    i: int,
)
    ensures
        batch_views(batches).len() == batches.len(),
        0 <= i < batches.len() ==> batch_views(batches)[i] == batches[i]@,
        snapshot_view(Some(snapshot)) == Some(snapshot@),
        snapshot_view(None) is None,
{
}

} // verus!
