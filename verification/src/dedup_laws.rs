//! What holds of the deduplication index over several calls: a batch is reserved
//! as a whole or not at all, and what is committed once is never new again.

use vstd::prelude::*;

use crate::dedup::{
    batch_keys, differs, finish_one, finished, finishing, first_difference, firsts, flagged, is_first,
    lemma_first_difference, lemma_visit_order, persisted, preflight, reserve_one, reserving, retired,
    verdict, visit_order, DedupEntry, PreflightView, Reserving, Stop, Verdict,
};
use crate::digest::{
    id_key, law_digests_stand_for_operations, op_fingerprint, same_content, told_apart,
};
use crate::model::OperationView;

verus! {

/// What is committed under a key, in memory or on the disk.
pub open spec fn known(
    memory: Map<[u8; 32], DedupEntry>,
    disk: Map<[u8; 32], [u8; 32]>,
    key: [u8; 32],
) -> Option<[u8; 32]> {
    match memory.get(key) {
        Some(DedupEntry::Committed(print)) => Some(print),
        Some(DedupEntry::Pending { fingerprint, reservation }) => None,
        None => disk.get(key),
    }
}

/// What the disk holds under the key of each operation.
pub open spec fn looked_up(
    ops: Seq<OperationView>,
    disk: Map<[u8; 32], [u8; 32]>,
) -> Seq<Option<[u8; 32]>> {
    ops.map_values(|op: OperationView| disk.get(id_key(op.operation_id)))
}

/// The key of one operation of a batch.
pub open spec fn key_at(ops: Seq<OperationView>, i: int) -> [u8; 32] {
    id_key(ops[i].operation_id)
}

/// Whether an operation of a batch is committed.
pub open spec fn known_at(
    memory: Map<[u8; 32], DedupEntry>,
    disk: Map<[u8; 32], [u8; 32]>,
    ops: Seq<OperationView>,
    i: int,
) -> bool {
    known(memory, disk, key_at(ops, i)) == Some(op_fingerprint(ops[i]))
}

/// Whether an operation of a batch is held by a reservation.
pub open spec fn held_at(
    memory: Map<[u8; 32], DedupEntry>,
    ops: Seq<OperationView>,
    i: int,
    reservation: u64,
) -> bool {
    memory.get(key_at(ops, i)) == Some(
        DedupEntry::Pending { fingerprint: op_fingerprint(ops[i]), reservation },
    )
}

/// Whether operations `i` and `j` of a batch are the same request.
pub open spec fn same_request(ops: Seq<OperationView>, i: int, j: int) -> bool {
    key_at(ops, i) == key_at(ops, j) && op_fingerprint(ops[i]) == op_fingerprint(ops[j])
}

/// Whether an operation of a batch is committed, or is the same request as one
/// that is flagged as new.
pub open spec fn covered(
    memory: Map<[u8; 32], DedupEntry>,
    disk: Map<[u8; 32], [u8; 32]>,
    ops: Seq<OperationView>,
    new: Seq<bool>,
    i: int,
) -> bool {
    known_at(memory, disk, ops, i) || exists|j: int|
        0 <= j < ops.len() && #[trigger] new[j] && same_request(ops, i, j)
}

/// Whether a batch is reserved: its new operations are held for it, and every
/// other one is committed or repeats a new one.
pub open spec fn is_reserved(
    memory: Map<[u8; 32], DedupEntry>,
    disk: Map<[u8; 32], [u8; 32]>,
    ops: Seq<OperationView>,
    new: Seq<bool>,
    reservation: u64,
) -> bool {
    &&& new.len() == ops.len()
    &&& forall|i: int| 0 <= i < ops.len() && #[trigger] new[i] ==> held_at(memory, ops, i, reservation)
    &&& forall|i: int| 0 <= i < ops.len() ==> #[trigger] covered(memory, disk, ops, new, i)
}

// ---------------------------------------------------------------- reserving
/// What a batch has reserved so far.
spec fn reserved_so_far(
    memory: Map<[u8; 32], DedupEntry>,
    ops: Seq<OperationView>,
    stored: Seq<Option<[u8; 32]>>,
    order: Seq<int>,
    reservation: u64,
    state: Reserving,
) -> bool {
    &&& state.new.len() == ops.len()
    &&& forall|k: [u8; 32]| #[trigger]
        memory.contains_key(k) ==> state.memory.contains_key(k) && state.memory[k] == memory[k]
    &&& forall|k: [u8; 32]| #[trigger]
        state.memory.contains_key(k) && !memory.contains_key(k) ==> exists|i: int|
            0 <= i < ops.len() && #[trigger] state.new[i] && key_at(ops, i) == k
    &&& forall|i: int|
        0 <= i < ops.len() && #[trigger] state.new[i] ==> order.contains(i) && held_at(
            state.memory,
            ops,
            i,
            reservation,
        ) && !memory.contains_key(key_at(ops, i)) && stored[i] is None
    &&& forall|i: int, j: int|
        0 <= i < j < ops.len() && #[trigger] state.new[i] && #[trigger] state.new[j] ==> key_at(ops, i)
            != key_at(ops, j)
    &&& state.stop is None ==> forall|i: int| #[trigger]
        order.contains(i) ==> state.new[i] || verdict(
            memory.get(key_at(ops, i)),
            stored[i],
            op_fingerprint(ops[i]),
        ) is Known
}

/// Whether `order` is `part` and one operation more.
spec fn one_more(part: Seq<int>, order: Seq<int>, last: int) -> bool {
    forall|i: int| #[trigger] order.contains(i) <==> part.contains(i) || i == last
}

proof fn lemma_reserve_fresh(
    memory: Map<[u8; 32], DedupEntry>,
    ops: Seq<OperationView>,
    stored: Seq<Option<[u8; 32]>>,
    part: Seq<int>,
    order: Seq<int>,
    last: int,
    reservation: u64,
    before: Reserving,
)
    requires
        reserved_so_far(memory, ops, stored, part, reservation, before),
        one_more(part, order, last),
        forall|i: int| #[trigger] part.contains(i) ==> 0 <= i < ops.len(),
        0 <= last < ops.len(),
        before.stop is None,
        verdict(before.memory.get(key_at(ops, last)), stored[last], op_fingerprint(ops[last])) is Fresh,
    ensures
        reserved_so_far(
            memory,
            ops,
            stored,
            order,
            reservation,
            reserve_one(before, ops, stored, last, reservation),
        ),
{
    let state = reserve_one(before, ops, stored, last, reservation);
    let key = key_at(ops, last);
    let entry = DedupEntry::Pending { fingerprint: op_fingerprint(ops[last]), reservation };
    assert(!before.memory.contains_key(key));
    assert(state.memory == before.memory.insert(key, entry));
    assert(state.new == before.new.update(last, true));
    assert(order.contains(last));
    assert(!memory.contains_key(key));
    assert forall|i: int| 0 <= i < ops.len() && #[trigger] state.new[i] implies order.contains(i)
        && held_at(state.memory, ops, i, reservation) && !memory.contains_key(key_at(ops, i))
        && stored[i] is None by {
        if i == last {
            assert(state.memory.get(key) == Some(entry));
        } else {
            assert(before.new[i]);
            assert(part.contains(i));
            lemma_still_held(before.memory, ops, i, reservation, key, entry);
        }
    }
    assert forall|i: int, j: int|
        0 <= i < j < ops.len() && #[trigger] state.new[i] && #[trigger] state.new[j] implies key_at(
        ops,
        i,
    ) != key_at(ops, j) by {
        if i == last {
            assert(before.new[j]);
            assert(held_at(before.memory, ops, j, reservation));
        } else if j == last {
            assert(before.new[i]);
            assert(held_at(before.memory, ops, i, reservation));
        } else {
            assert(before.new[i]);
            assert(before.new[j]);
        }
    }
    assert forall|k: [u8; 32]| #[trigger]
        state.memory.contains_key(k) && !memory.contains_key(k) implies exists|i: int|
        0 <= i < ops.len() && #[trigger] state.new[i] && key_at(ops, i) == k by {
        if k != key {
            assert(before.memory.contains_key(k));
            let i = choose|i: int|
                0 <= i < ops.len() && #[trigger] before.new[i] && key_at(ops, i) == k;
            assert(state.new[i]);
        } else {
            assert(state.new[last]);
        }
    }
    assert forall|i: int| #[trigger] order.contains(i) implies state.new[i] || verdict(
        memory.get(key_at(ops, i)),
        stored[i],
        op_fingerprint(ops[i]),
    ) is Known by {
        if i != last {
            assert(part.contains(i));
        }
    }
}

/// What is held stays held when another key is reserved.
proof fn lemma_still_held(
    memory: Map<[u8; 32], DedupEntry>,
    ops: Seq<OperationView>,
    i: int,
    reservation: u64,
    key: [u8; 32],
    entry: DedupEntry,
)
    requires
        held_at(memory, ops, i, reservation),
        !memory.contains_key(key),
    ensures
        held_at(memory.insert(key, entry), ops, i, reservation),
{
    assert(memory.contains_key(key_at(ops, i)));
}

proof fn lemma_reserve_known(
    memory: Map<[u8; 32], DedupEntry>,
    ops: Seq<OperationView>,
    stored: Seq<Option<[u8; 32]>>,
    part: Seq<int>,
    order: Seq<int>,
    last: int,
    reservation: u64,
    before: Reserving,
)
    requires
        reserved_so_far(memory, ops, stored, part, reservation, before),
        one_more(part, order, last),
        0 <= last < ops.len(),
        before.stop is None,
        verdict(before.memory.get(key_at(ops, last)), stored[last], op_fingerprint(ops[last])) is Known,
    ensures
        reserved_so_far(memory, ops, stored, order, reservation, before),
{
    let key = key_at(ops, last);
    // What was reserved is pending, so what is known here is known from before.
    if before.memory.contains_key(key) && !memory.contains_key(key) {
        let i = choose|i: int| 0 <= i < ops.len() && #[trigger] before.new[i] && key_at(ops, i) == key;
        assert(held_at(before.memory, ops, i, reservation));
    }
    assert(before.memory.get(key) == memory.get(key));
    assert forall|i: int| 0 <= i < ops.len() && #[trigger] before.new[i] implies order.contains(i)
        && held_at(before.memory, ops, i, reservation) && !memory.contains_key(key_at(ops, i))
        && stored[i] is None by {
        assert(part.contains(i));
    }
    assert forall|i: int| #[trigger] order.contains(i) implies before.new[i] || verdict(
        memory.get(key_at(ops, i)),
        stored[i],
        op_fingerprint(ops[i]),
    ) is Known by {
        if i != last {
            assert(part.contains(i));
        }
    }
}

proof fn lemma_reserve_stopped(
    memory: Map<[u8; 32], DedupEntry>,
    ops: Seq<OperationView>,
    stored: Seq<Option<[u8; 32]>>,
    part: Seq<int>,
    order: Seq<int>,
    last: int,
    reservation: u64,
    before: Reserving,
    state: Reserving,
)
    requires
        reserved_so_far(memory, ops, stored, part, reservation, before),
        one_more(part, order, last),
        state.memory == before.memory,
        state.new == before.new,
        state.stop is Some,
    ensures
        reserved_so_far(memory, ops, stored, order, reservation, state),
{
    assert forall|i: int| 0 <= i < ops.len() && #[trigger] state.new[i] implies order.contains(i)
        && held_at(state.memory, ops, i, reservation) && !memory.contains_key(key_at(ops, i))
        && stored[i] is None by {
        assert(before.new[i]);
        assert(part.contains(i));
    }
    assert forall|i: int, j: int|
        0 <= i < j < ops.len() && #[trigger] state.new[i] && #[trigger] state.new[j] implies key_at(
        ops,
        i,
    ) != key_at(ops, j) by {
        assert(before.new[i]);
        assert(before.new[j]);
    }
    assert forall|k: [u8; 32]| #[trigger]
        state.memory.contains_key(k) && !memory.contains_key(k) implies exists|i: int|
        0 <= i < ops.len() && #[trigger] state.new[i] && key_at(ops, i) == k by {
        let i = choose|i: int| 0 <= i < ops.len() && #[trigger] before.new[i] && key_at(ops, i) == k;
        assert(state.new[i]);
    }
}

proof fn lemma_reserving(
    memory: Map<[u8; 32], DedupEntry>,
    ops: Seq<OperationView>,
    stored: Seq<Option<[u8; 32]>>,
    order: Seq<int>,
    reservation: u64,
)
    requires
        forall|i: int| #[trigger] order.contains(i) ==> 0 <= i < ops.len(),
    ensures
        reserved_so_far(
            memory,
            ops,
            stored,
            order,
            reservation,
            reserving(memory, ops, stored, order, reservation),
        ),
    decreases order.len(),
{
    let state = reserving(memory, ops, stored, order, reservation);
    if order.len() > 0 {
        let part = order.drop_last();
        let last = order.last();
        assert(one_more(part, order, last)) by {
            assert(order[order.len() - 1] == last);
            assert forall|i: int| #[trigger] order.contains(i) <==> part.contains(i) || i == last by {
                if part.contains(i) {
                    let p = choose|p: int| 0 <= p < part.len() && part[p] == i;
                    assert(order[p] == i);
                }
                if order.contains(i) {
                    let p = choose|p: int| 0 <= p < order.len() && order[p] == i;
                    if p < part.len() {
                        assert(part[p] == i);
                    }
                }
            }
        }
        assert(order.contains(last));
        assert forall|i: int| #[trigger] part.contains(i) implies 0 <= i < ops.len() by {
            assert(order.contains(i));
        }
        lemma_reserving(memory, ops, stored, part, reservation);
        let before = reserving(memory, ops, stored, part, reservation);
        if before.stop is None {
            let said = verdict(
                before.memory.get(key_at(ops, last)),
                stored[last],
                op_fingerprint(ops[last]),
            );
            if said is Fresh {
                lemma_reserve_fresh(memory, ops, stored, part, order, last, reservation, before);
            } else if said is Known {
                lemma_reserve_known(memory, ops, stored, part, order, last, reservation, before);
            } else {
                lemma_reserve_stopped(
                    memory,
                    ops,
                    stored,
                    part,
                    order,
                    last,
                    reservation,
                    before,
                    state,
                );
            }
        } else {
            lemma_reserve_stopped(
                memory,
                ops,
                stored,
                part,
                order,
                last,
                reservation,
                before,
                state,
            );
        }
    } else {
        assert(forall|i: int| !#[trigger] order.contains(i));
    }
}

/// The operations that the index visits for a batch.
proof fn lemma_visited(ops: Seq<OperationView>)
    ensures
        forall|i: int| #[trigger]
            visit_order(batch_keys(ops), firsts(ops)).contains(i) <==> 0 <= i < ops.len() && is_first(
                ops,
                i,
            ),
{
    lemma_visit_order(batch_keys(ops), firsts(ops));
}

/// Each operation has a first one with its identifier.
proof fn lemma_has_first(ops: Seq<OperationView>, i: int) -> (j: int)
    requires
        0 <= i < ops.len(),
    ensures
        0 <= j <= i,
        is_first(ops, j),
        ops[j].operation_id == ops[i].operation_id,
    decreases i,
{
    if is_first(ops, i) {
        i
    } else {
        let k = choose|k: int| 0 <= k < i && (#[trigger] ops[k]).operation_id == ops[i].operation_id;
        lemma_has_first(ops, k)
    }
}

/// A batch that may go on is reserved: each of its operations that nothing was
/// known of is held for it, and every other one is committed or repeats one of
/// those. What the index held before, it still holds.
pub proof fn law_ready_batch_is_reserved(
    memory: Map<[u8; 32], DedupEntry>,
    disk: Map<[u8; 32], [u8; 32]>,
    ops: Seq<OperationView>,
    reservation: u64,
)
    ensures
        ({
            let (after, answer) = preflight(memory, ops, looked_up(ops, disk), reservation);
            &&& forall|k: [u8; 32]| #[trigger]
                memory.contains_key(k) ==> after.contains_key(k) && after[k] == memory[k]
            &&& answer matches PreflightView::Ready(new) ==> {
                &&& is_reserved(after, disk, ops, new, reservation)
                &&& forall|i: int|
                    0 <= i < ops.len() && #[trigger] new[i] ==> is_first(ops, i)
                        && !memory.contains_key(key_at(ops, i)) && !disk.contains_key(key_at(ops, i))
                &&& forall|k: [u8; 32]| #[trigger]
                    after.contains_key(k) && !memory.contains_key(k) ==> exists|i: int|
                        0 <= i < ops.len() && #[trigger] new[i] && key_at(ops, i) == k
            }
        }),
{
    let stored = looked_up(ops, disk);
    let order = visit_order(batch_keys(ops), firsts(ops));
    let end = reserving(memory, ops, stored, order, reservation);
    lemma_visited(ops);
    lemma_reserving(memory, ops, stored, order, reservation);
    lemma_first_difference(ops, ops.len() as int);
    if first_difference(ops, ops.len() as int) is None && end.stop is None {
        let new = end.new;
        assert forall|i: int| 0 <= i < ops.len() && #[trigger] new[i] implies is_first(ops, i)
            && !memory.contains_key(key_at(ops, i)) && !disk.contains_key(key_at(ops, i)) by {
            assert(order.contains(i));
            assert(stored[i] == disk.get(key_at(ops, i)));
        }
        assert forall|i: int| 0 <= i < ops.len() implies #[trigger] covered(
            end.memory,
            disk,
            ops,
            new,
            i,
        ) by {
            let j = lemma_has_first(ops, i);
            assert(order.contains(j));
            if j < i {
                if op_fingerprint(ops[j]) != op_fingerprint(ops[i]) {
                    assert(differs(ops, i));
                }
            }
            assert(same_request(ops, i, j));
            assert(stored[j] == disk.get(key_at(ops, j)));
            if !new[j] {
                let key = key_at(ops, j);
                if end.memory.contains_key(key) && !memory.contains_key(key) {
                    let n = choose|n: int|
                        0 <= n < ops.len() && #[trigger] new[n] && key_at(ops, n) == key;
                    assert(stored[n] == disk.get(key));
                }
                assert(end.memory.get(key) == memory.get(key));
                assert(known_at(end.memory, disk, ops, i));
            }
        }
    }
}

/// Whether no batch is on its way.
pub open spec fn nothing_pending(memory: Map<[u8; 32], DedupEntry>) -> bool {
    forall|k: [u8; 32]| #[trigger] memory.contains_key(k) ==> memory[k] is Committed
}

/// Whether one of the first `i` operations of a batch has a key.
pub open spec fn key_before(ops: Seq<OperationView>, i: int, key: [u8; 32]) -> bool {
    exists|j: int| 0 <= j < i && #[trigger] key_at(ops, j) == key
}

/// Where no other batch is on its way, the new operations of a batch are exactly
/// those that nothing is known of and that no earlier one of the batch repeats.
pub proof fn law_new_means_unknown(
    memory: Map<[u8; 32], DedupEntry>,
    disk: Map<[u8; 32], [u8; 32]>,
    ops: Seq<OperationView>,
    reservation: u64,
    i: int,
)
    requires
        nothing_pending(memory),
        0 <= i < ops.len(),
    ensures
        preflight(memory, ops, looked_up(ops, disk), reservation).1 matches PreflightView::Ready(new)
            ==> (new[i] <==> known(memory, disk, key_at(ops, i)) is None && !key_before(
            ops,
            i,
            key_at(ops, i),
        )),
{
    let stored = looked_up(ops, disk);
    let order = visit_order(batch_keys(ops), firsts(ops));
    let end = reserving(memory, ops, stored, order, reservation);
    lemma_visited(ops);
    lemma_reserving(memory, ops, stored, order, reservation);
    let key = key_at(ops, i);
    assert(stored[i] == disk.get(key));
    if first_difference(ops, ops.len() as int) is None && end.stop is None {
        if end.new[i] {
            if key_before(ops, i, key) {
                let j = choose|j: int| 0 <= j < i && #[trigger] key_at(ops, j) == key;
                let n = lemma_has_first(ops, j);
                assert(order.contains(n));
                assert(key_at(ops, n) == key);
                assert(stored[n] == disk.get(key));
                if end.new[n] {
                    assert(key_at(ops, n) != key_at(ops, i));
                }
            }
        } else if known(memory, disk, key) is None && !key_before(ops, i, key) {
            assert(!memory.contains_key(key));
            if !is_first(ops, i) {
                let j = choose|j: int|
                    0 <= j < i && (#[trigger] ops[j]).operation_id == ops[i].operation_id;
                assert(key_at(ops, j) == key);
            }
            assert(order.contains(i));
        }
    }
}

/// A reserved batch stays reserved while other batches ask to be reserved.
pub proof fn law_reservation_is_kept(
    memory: Map<[u8; 32], DedupEntry>,
    disk: Map<[u8; 32], [u8; 32]>,
    ops: Seq<OperationView>,
    new: Seq<bool>,
    reservation: u64,
    other_ops: Seq<OperationView>,
    other_reservation: u64,
)
    requires
        is_reserved(memory, disk, ops, new, reservation),
    ensures
        is_reserved(
            preflight(memory, other_ops, looked_up(other_ops, disk), other_reservation).0,
            disk,
            ops,
            new,
            reservation,
        ),
{
    law_ready_batch_is_reserved(memory, disk, other_ops, other_reservation);
    let (after, answer) = preflight(
        memory,
        other_ops,
        looked_up(other_ops, disk),
        other_reservation,
    );
    assert forall|i: int| 0 <= i < ops.len() && #[trigger] new[i] implies held_at(
        after,
        ops,
        i,
        reservation,
    ) by {
        assert(held_at(memory, ops, i, reservation));
        assert(memory.contains_key(key_at(ops, i)));
    }
    assert forall|i: int| 0 <= i < ops.len() implies #[trigger] covered(after, disk, ops, new, i) by {
        assert(covered(memory, disk, ops, new, i));
        let key = key_at(ops, i);
        if known_at(memory, disk, ops, i) {
            if memory.contains_key(key) {
                assert(after.contains_key(key));
            } else {
                assert(disk.contains_key(key));
                if after.contains_key(key) {
                    assert(answer is Ready);
                }
            }
            assert(known_at(after, disk, ops, i));
        }
    }
}

// ---------------------------------------------------------------- the end of a batch
/// Whether the end of a batch comes by a key.
spec fn touched(keys: Seq<[u8; 32]>, order: Seq<int>, key: [u8; 32]) -> bool {
    exists|p: int| 0 <= p < order.len() && keys[#[trigger] order[p]] == key
}

spec fn ended(entry: DedupEntry) -> DedupEntry {
    match entry {
        DedupEntry::Pending { fingerprint, reservation } => DedupEntry::Committed(fingerprint),
        DedupEntry::Committed(print) => entry,
    }
}

proof fn lemma_touched_more(keys: Seq<[u8; 32]>, order: Seq<int>, key: [u8; 32])
    requires
        order.len() > 0,
    ensures
        touched(keys, order, key) <==> touched(keys, order.drop_last(), key) || keys[order.last()] == key,
{
    let part = order.drop_last();
    if touched(keys, part, key) {
        let p = choose|p: int| 0 <= p < part.len() && keys[#[trigger] part[p]] == key;
        assert(keys[order[p]] == key);
    }
    if keys[order.last()] == key {
        assert(keys[order[order.len() - 1]] == key);
    }
    if touched(keys, order, key) {
        let p = choose|p: int| 0 <= p < order.len() && keys[#[trigger] order[p]] == key;
        if p < part.len() {
            assert(keys[part[p]] == key);
        }
    }
}

proof fn lemma_committing(memory: Map<[u8; 32], DedupEntry>, keys: Seq<[u8; 32]>, order: Seq<int>)
    ensures
        ({
            let end = finishing(memory, keys, order, true);
            &&& end.memory.dom() == memory.dom()
            &&& forall|k: [u8; 32]| #[trigger]
                memory.contains_key(k) ==> end.memory[k] == if touched(keys, order, k) {
                    ended(memory[k])
                } else {
                    memory[k]
                }
            &&& forall|e: ([u8; 32], [u8; 32])| #[trigger]
                end.disk.contains(e) ==> end.memory.get(e.0) == Some(DedupEntry::Committed(e.1))
        }),
    decreases order.len(),
{
    let end = finishing(memory, keys, order, true);
    if order.len() > 0 {
        lemma_committing(memory, keys, order.drop_last());
        let before = finishing(memory, keys, order.drop_last(), true);
        let key = keys[order.last()];
        assert(end == finish_one(before, key, true));
        assert(end.memory.dom() =~= memory.dom());
        assert forall|k: [u8; 32]| #[trigger] memory.contains_key(k) implies end.memory[k] == if touched(
            keys,
            order,
            k,
        ) {
            ended(memory[k])
        } else {
            memory[k]
        } by {
            lemma_touched_more(keys, order, k);
            assert(before.memory.contains_key(k));
        }
        assert forall|e: ([u8; 32], [u8; 32])| #[trigger] end.disk.contains(e) implies end.memory.get(
            e.0,
        ) == Some(DedupEntry::Committed(e.1)) by {
            let p = choose|p: int| 0 <= p < end.disk.len() && end.disk[p] == e;
            if p < before.disk.len() {
                assert(before.disk[p] == e);
                assert(before.disk.contains(e));
            }
        }
    } else {
        assert forall|k: [u8; 32]| !touched(keys, order, k) by {}
    }
}

proof fn lemma_cancelling(memory: Map<[u8; 32], DedupEntry>, keys: Seq<[u8; 32]>, order: Seq<int>)
    ensures
        ({
            let end = finishing(memory, keys, order, false);
            &&& forall|k: [u8; 32]| #[trigger]
                end.memory.contains_key(k) <==> memory.contains_key(k) && !touched(keys, order, k)
            &&& forall|k: [u8; 32]| #[trigger]
                end.memory.contains_key(k) ==> end.memory[k] == memory[k]
        }),
    decreases order.len(),
{
    let end = finishing(memory, keys, order, false);
    if order.len() > 0 {
        lemma_cancelling(memory, keys, order.drop_last());
        let before = finishing(memory, keys, order.drop_last(), false);
        let key = keys[order.last()];
        assert(end == finish_one(before, key, false));
        assert forall|k: [u8; 32]| #[trigger] end.memory.contains_key(k) <==> memory.contains_key(k)
            && !touched(keys, order, k) by {
            lemma_touched_more(keys, order, k);
            assert(before.memory.contains_key(k) <==> memory.contains_key(k) && !touched(
                keys,
                order.drop_last(),
                k,
            ));
        }
    } else {
        assert forall|k: [u8; 32]| !touched(keys, order, k) by {}
    }
}

/// Flags for every operation speak of the whole batch.
proof fn lemma_flagged(ops: Seq<OperationView>, new: Seq<bool>)
    requires
        new.len() == ops.len(),
    ensures
        ops.take(flagged(ops, new)) == ops,
        new.take(flagged(ops, new)) == new,
{
    assert(ops.take(flagged(ops, new)) =~= ops);
    assert(new.take(flagged(ops, new)) =~= new);
}

/// The keys that the end of a batch comes by are those of its new operations.
proof fn lemma_touched(ops: Seq<OperationView>, new: Seq<bool>, key: [u8; 32])
    requires
        new.len() == ops.len(),
    ensures
        touched(batch_keys(ops), visit_order(batch_keys(ops), new), key) <==> exists|i: int|
            0 <= i < ops.len() && #[trigger] new[i] && key_at(ops, i) == key,
{
    let keys = batch_keys(ops);
    let order = visit_order(keys, new);
    lemma_visit_order(keys, new);
    if touched(keys, order, key) {
        let p = choose|p: int| 0 <= p < order.len() && keys[#[trigger] order[p]] == key;
        assert(order.contains(order[p]));
        assert(new[order[p]]);
        assert(key_at(ops, order[p]) == key);
    }
    if exists|i: int| 0 <= i < ops.len() && #[trigger] new[i] && key_at(ops, i) == key {
        let i = choose|i: int| 0 <= i < ops.len() && #[trigger] new[i] && key_at(ops, i) == key;
        assert(order.contains(i));
        let p = choose|p: int| 0 <= p < order.len() && order[p] == i;
        assert(keys[order[p]] == key);
    }
}

/// Once a reserved batch is committed, every operation of it is committed with
/// what it says, nothing that was committed before is changed, and what is handed
/// on to the disk is what is committed.
pub proof fn law_committed_batch_is_known(
    memory: Map<[u8; 32], DedupEntry>,
    disk: Map<[u8; 32], [u8; 32]>,
    ops: Seq<OperationView>,
    new: Seq<bool>,
    reservation: u64,
)
    requires
        is_reserved(memory, disk, ops, new, reservation),
    ensures
        ({
            let end = finished(memory, ops, new, true);
            &&& forall|i: int| 0 <= i < ops.len() ==> #[trigger] known_at(end.memory, disk, ops, i)
            &&& forall|k: [u8; 32]|
                known(memory, disk, k) is Some ==> #[trigger] known(end.memory, disk, k) == known(
                    memory,
                    disk,
                    k,
                )
            &&& forall|e: ([u8; 32], [u8; 32])| #[trigger]
                end.disk.contains(e) ==> known(end.memory, disk, e.0) == Some(e.1)
        }),
{
    let end = finished(memory, ops, new, true);
    let keys = batch_keys(ops);
    let order = visit_order(keys, new);
    lemma_flagged(ops, new);
    lemma_committing(memory, keys, order);
    assert forall|k: [u8; 32]| known(memory, disk, k) is Some implies #[trigger] known(
        end.memory,
        disk,
        k,
    ) == known(memory, disk, k) by {
        assert(end.memory.contains_key(k) == memory.contains_key(k));
    }
    assert forall|i: int| 0 <= i < ops.len() implies #[trigger] known_at(end.memory, disk, ops, i) by {
        assert(covered(memory, disk, ops, new, i));
        let key = key_at(ops, i);
        if known_at(memory, disk, ops, i) {
            assert(known(end.memory, disk, key) == known(memory, disk, key));
        } else {
            let j = choose|j: int| 0 <= j < ops.len() && #[trigger] new[j] && same_request(ops, i, j);
            assert(held_at(memory, ops, j, reservation));
            lemma_touched(ops, new, key);
            assert(memory.contains_key(key));
        }
    }
}

/// Once a batch is reserved and committed, exactly its operations have become
/// known, and no batch is on its way that was not before.
pub proof fn law_commit_makes_the_batch_known(
    memory: Map<[u8; 32], DedupEntry>,
    disk: Map<[u8; 32], [u8; 32]>,
    ops: Seq<OperationView>,
    reservation: u64,
    key: [u8; 32],
)
    requires
        nothing_pending(memory),
    ensures
        ({
            let (after, answer) = preflight(memory, ops, looked_up(ops, disk), reservation);
            answer matches PreflightView::Ready(new) ==> {
                let end = finished(after, ops, new, true).memory;
                &&& nothing_pending(end)
                &&& known(end, disk, key) is Some <==> known(memory, disk, key) is Some || key_before(
                    ops,
                    ops.len() as int,
                    key,
                )
            }
        }),
{
    law_ready_batch_is_reserved(memory, disk, ops, reservation);
    let (after, answer) = preflight(memory, ops, looked_up(ops, disk), reservation);
    if let PreflightView::Ready(new) = answer {
        let keys = batch_keys(ops);
        let order = visit_order(keys, new);
        let end = finished(after, ops, new, true).memory;
        lemma_flagged(ops, new);
        lemma_committing(after, keys, order);
        law_committed_batch_is_known(after, disk, ops, new, reservation);
        assert forall|k: [u8; 32]| #[trigger] end.contains_key(k) implies end[k] is Committed by {
            assert(after.contains_key(k));
            lemma_touched(ops, new, k);
            if memory.contains_key(k) {
                assert(after[k] == memory[k]);
            }
        }
        if key_before(ops, ops.len() as int, key) {
            let i = choose|i: int| 0 <= i < ops.len() && #[trigger] key_at(ops, i) == key;
            assert(known_at(end, disk, ops, i));
        }
        if known(memory, disk, key) is Some {
            if memory.contains_key(key) {
                assert(after.contains_key(key));
            } else if after.contains_key(key) {
                let i = choose|i: int| 0 <= i < ops.len() && #[trigger] new[i] && key_at(ops, i) == key;
                assert(!disk.contains_key(key));
            }
            assert(known(after, disk, key) == known(memory, disk, key));
        }
        if known(end, disk, key) is Some && known(memory, disk, key) is None {
            assert(!memory.contains_key(key));
            if end.contains_key(key) {
                assert(after.contains_key(key));
                let i = choose|i: int| 0 <= i < ops.len() && #[trigger] new[i] && key_at(ops, i) == key;
                assert(key_at(ops, i) == key);
            }
        }
    }
}

/// A batch that was reserved and then failed leaves the index as it was before.
pub proof fn law_failed_batch_leaves_no_trace(
    memory: Map<[u8; 32], DedupEntry>,
    disk: Map<[u8; 32], [u8; 32]>,
    ops: Seq<OperationView>,
    reservation: u64,
)
    ensures
        ({
            let (after, answer) = preflight(memory, ops, looked_up(ops, disk), reservation);
            answer matches PreflightView::Ready(new) ==> finished(after, ops, new, false).memory
                == memory
        }),
{
    law_ready_batch_is_reserved(memory, disk, ops, reservation);
    let (after, answer) = preflight(memory, ops, looked_up(ops, disk), reservation);
    if let PreflightView::Ready(new) = answer {
        let end = finished(after, ops, new, false);
        let keys = batch_keys(ops);
        let order = visit_order(keys, new);
        lemma_flagged(ops, new);
        lemma_cancelling(after, keys, order);
        assert forall|k: [u8; 32]| #[trigger] end.memory.contains_key(k) == memory.contains_key(k) by {
            lemma_touched(ops, new, k);
            if memory.contains_key(k) {
                assert(after.contains_key(k));
            }
        }
        assert(end.memory =~= memory);
    }
}

// ---------------------------------------------------------------- deliveries that come again
/// A batch of committed operations is answered with nothing new, and changes
/// nothing, however often it comes.
pub proof fn law_known_operations_are_duplicates(
    memory: Map<[u8; 32], DedupEntry>,
    disk: Map<[u8; 32], [u8; 32]>,
    ops: Seq<OperationView>,
    reservation: u64,
)
    requires
        forall|i: int| 0 <= i < ops.len() ==> #[trigger] known_at(memory, disk, ops, i),
    ensures
        preflight(memory, ops, looked_up(ops, disk), reservation) == (
            memory,
            PreflightView::Ready(Seq::new(ops.len(), |i: int| false)),
        ),
{
    let stored = looked_up(ops, disk);
    lemma_first_difference(ops, ops.len() as int);
    if first_difference(ops, ops.len() as int) is Some {
        let i = first_difference(ops, ops.len() as int)->0;
        let j = choose|j: int|
            0 <= j < i && (#[trigger] ops[j]).operation_id == ops[i].operation_id && op_fingerprint(
                ops[j],
            ) != op_fingerprint(ops[i]);
        assert(known_at(memory, disk, ops, i));
        assert(known_at(memory, disk, ops, j));
    }
    let order = visit_order(batch_keys(ops), firsts(ops));
    lemma_visited(ops);
    assert forall|n: int| 0 <= n <= order.len() implies #[trigger] reserving(
        memory,
        ops,
        stored,
        order.take(n),
        reservation,
    ) == (Reserving { memory, new: Seq::new(ops.len(), |i: int| false), stop: None }) by {
        lemma_nothing_new(memory, disk, ops, order, n, reservation);
    }
    assert(order.take(order.len() as int) =~= order);
    assert(reserving(memory, ops, stored, order.take(order.len() as int), reservation).stop is None);
}

proof fn lemma_nothing_new(
    memory: Map<[u8; 32], DedupEntry>,
    disk: Map<[u8; 32], [u8; 32]>,
    ops: Seq<OperationView>,
    order: Seq<int>,
    n: int,
    reservation: u64,
)
    requires
        forall|i: int| 0 <= i < ops.len() ==> #[trigger] known_at(memory, disk, ops, i),
        forall|i: int| #[trigger] order.contains(i) ==> 0 <= i < ops.len(),
        0 <= n <= order.len(),
    ensures
        reserving(memory, ops, looked_up(ops, disk), order.take(n), reservation) == (Reserving {
            memory,
            new: Seq::new(ops.len(), |i: int| false),
            stop: None,
        }),
    decreases n,
{
    if n > 0 {
        lemma_nothing_new(memory, disk, ops, order, n - 1, reservation);
        assert(order.take(n).drop_last() =~= order.take(n - 1));
        let i = order[n - 1];
        assert(order.contains(i));
        assert(known_at(memory, disk, ops, i));
        assert(looked_up(ops, disk)[i] == disk.get(key_at(ops, i)));
    }
}

/// A batch with an operation whose identifier is committed with something else is
/// not reserved, and changes nothing.
pub proof fn law_other_content_is_refused(
    memory: Map<[u8; 32], DedupEntry>,
    disk: Map<[u8; 32], [u8; 32]>,
    ops: Seq<OperationView>,
    i: int,
    reservation: u64,
)
    requires
        0 <= i < ops.len(),
        known(memory, disk, key_at(ops, i)) is Some,
        !known_at(memory, disk, ops, i),
    ensures
        ({
            let (after, answer) = preflight(memory, ops, looked_up(ops, disk), reservation);
            after == memory && answer !is Ready
        }),
{
    let (after, answer) = preflight(memory, ops, looked_up(ops, disk), reservation);
    law_ready_batch_is_reserved(memory, disk, ops, reservation);
    if let PreflightView::Ready(new) = answer {
        assert(covered(after, disk, ops, new, i));
        let key = key_at(ops, i);
        if known_at(after, disk, ops, i) {
            if memory.contains_key(key) {
                assert(after.contains_key(key));
            } else if after.contains_key(key) {
                let n = choose|n: int|
                    0 <= n < ops.len() && #[trigger] new[n] && key_at(ops, n) == key;
                assert(!disk.contains_key(key));
            }
        } else {
            let j = choose|j: int| 0 <= j < ops.len() && #[trigger] new[j] && same_request(ops, i, j);
            assert(!memory.contains_key(key_at(ops, j)));
            assert(!disk.contains_key(key_at(ops, j)));
        }
    }
}

/// What is committed stays committed when it moves from memory to the disk.
pub proof fn law_retired_entries_stay_known(
    memory: Map<[u8; 32], DedupEntry>,
    disk: Map<[u8; 32], [u8; 32]>,
    disk_after: Map<[u8; 32], [u8; 32]>,
    entries: Seq<([u8; 32], [u8; 32])>,
    key: [u8; 32],
)
    requires
        forall|e: ([u8; 32], [u8; 32])| #[trigger]
            entries.contains(e) ==> known(memory, disk, e.0) == Some(e.1),
        forall|e: ([u8; 32], [u8; 32])| #[trigger]
            entries.contains(e) ==> disk_after.get(e.0) == Some(e.1),
        forall|k: [u8; 32]|
            (forall|print: [u8; 32]| !entries.contains((k, print))) ==> #[trigger] disk_after.get(k)
                == disk.get(k),
    ensures
        known(retired(memory, entries), disk_after, key) == known(memory, disk, key),
{
    let after = retired(memory, entries);
    if memory.contains_key(key) {
        if persisted(memory, entries, key) {
            assert(!after.contains_key(key));
        } else {
            assert(after.contains_key(key));
        }
    } else {
        assert(!after.contains_key(key));
        if exists|print: [u8; 32]| entries.contains((key, print)) {
            let print = choose|print: [u8; 32]| entries.contains((key, print));
            assert(entries.contains((key, print)));
        } else {
            assert(disk_after.get(key) == disk.get(key));
        }
    }
}

// ---------------------------------------------------------------- batches that overlap
/// A reserved batch stays reserved when another reserved batch ends, committed or
/// not, and what was committed before stays committed with what it says.
pub proof fn law_reservation_outlives_other_batches(
    memory: Map<[u8; 32], DedupEntry>,
    disk: Map<[u8; 32], [u8; 32]>,
    ops: Seq<OperationView>,
    new: Seq<bool>,
    reservation: u64,
    other_ops: Seq<OperationView>,
    other_new: Seq<bool>,
    other_reservation: u64,
    committed: bool,
)
    requires
        is_reserved(memory, disk, ops, new, reservation),
        is_reserved(memory, disk, other_ops, other_new, other_reservation),
        reservation != other_reservation,
    ensures
        ({
            let end = finished(memory, other_ops, other_new, committed).memory;
            &&& is_reserved(end, disk, ops, new, reservation)
            &&& forall|k: [u8; 32]|
                known(memory, disk, k) is Some ==> #[trigger] known(end, disk, k) == known(
                    memory,
                    disk,
                    k,
                )
        }),
{
    let end = finished(memory, other_ops, other_new, committed).memory;
    law_end_touches_its_own_keys(memory, disk, other_ops, other_new, other_reservation, committed);
    assert forall|i: int| 0 <= i < ops.len() && #[trigger] new[i] implies held_at(
        end,
        ops,
        i,
        reservation,
    ) by {
        assert(held_at(memory, ops, i, reservation));
        let key = key_at(ops, i);
        if is_new_key(other_ops, other_new, key) {
            let j = choose|j: int|
                0 <= j < other_ops.len() && #[trigger] other_new[j] && key_at(other_ops, j) == key;
            assert(held_at(memory, other_ops, j, other_reservation));
        }
        assert(end.get(key) == memory.get(key));
    }
    assert forall|k: [u8; 32]| known(memory, disk, k) is Some implies #[trigger] known(end, disk, k)
        == known(memory, disk, k) by {
        if is_new_key(other_ops, other_new, k) {
            let j = choose|j: int|
                0 <= j < other_ops.len() && #[trigger] other_new[j] && key_at(other_ops, j) == k;
            assert(held_at(memory, other_ops, j, other_reservation));
        }
        assert(end.get(k) == memory.get(k));
    }
    assert forall|i: int| 0 <= i < ops.len() implies #[trigger] covered(end, disk, ops, new, i) by {
        assert(covered(memory, disk, ops, new, i));
        if known_at(memory, disk, ops, i) {
            assert(known(end, disk, key_at(ops, i)) == known(memory, disk, key_at(ops, i)));
            assert(known_at(end, disk, ops, i));
        }
    }
}

/// Whether a key is that of an operation that is flagged as new.
pub open spec fn is_new_key(ops: Seq<OperationView>, new: Seq<bool>, key: [u8; 32]) -> bool {
    exists|i: int| 0 <= i < ops.len() && #[trigger] new[i] && key_at(ops, i) == key
}

/// The end of a reserved batch changes what the index holds under the keys of its new
/// operations, and nothing else: they are committed, or else free again.
pub proof fn law_end_touches_its_own_keys(
    memory: Map<[u8; 32], DedupEntry>,
    disk: Map<[u8; 32], [u8; 32]>,
    ops: Seq<OperationView>,
    new: Seq<bool>,
    reservation: u64,
    committed: bool,
)
    requires
        is_reserved(memory, disk, ops, new, reservation),
    ensures
        ({
            let end = finished(memory, ops, new, committed).memory;
            &&& forall|k: [u8; 32]|
                !is_new_key(ops, new, k) ==> #[trigger] end.get(k) == memory.get(k)
            &&& forall|i: int|
                0 <= i < ops.len() && #[trigger] new[i] ==> end.get(key_at(ops, i)) == if committed {
                    Some(DedupEntry::Committed(op_fingerprint(ops[i])))
                } else {
                    None
                }
        }),
{
    let end = finished(memory, ops, new, committed).memory;
    let keys = batch_keys(ops);
    let order = visit_order(keys, new);
    lemma_flagged(ops, new);
    lemma_committing(memory, keys, order);
    lemma_cancelling(memory, keys, order);
    assert forall|k: [u8; 32]| !is_new_key(ops, new, k) implies #[trigger] end.get(k) == memory.get(k) by {
        lemma_touched(ops, new, k);
        assert(end.contains_key(k) == memory.contains_key(k));
    }
    assert forall|i: int| 0 <= i < ops.len() && #[trigger] new[i] implies end.get(key_at(ops, i))
        == if committed {
        Some(DedupEntry::Committed(op_fingerprint(ops[i])))
    } else {
        None
    } by {
        let key = key_at(ops, i);
        assert(held_at(memory, ops, i, reservation));
        lemma_touched(ops, new, key);
        assert(memory.contains_key(key));
    }
}

/// A reserved batch stays reserved when committed entries move to the disk.
pub proof fn law_reservation_outlives_retirement(
    memory: Map<[u8; 32], DedupEntry>,
    disk: Map<[u8; 32], [u8; 32]>,
    disk_after: Map<[u8; 32], [u8; 32]>,
    entries: Seq<([u8; 32], [u8; 32])>,
    ops: Seq<OperationView>,
    new: Seq<bool>,
    reservation: u64,
)
    requires
        is_reserved(memory, disk, ops, new, reservation),
        forall|e: ([u8; 32], [u8; 32])| #[trigger]
            entries.contains(e) ==> known(memory, disk, e.0) == Some(e.1),
        forall|e: ([u8; 32], [u8; 32])| #[trigger]
            entries.contains(e) ==> disk_after.get(e.0) == Some(e.1),
        forall|k: [u8; 32]|
            (forall|print: [u8; 32]| !entries.contains((k, print))) ==> #[trigger] disk_after.get(k)
                == disk.get(k),
    ensures
        is_reserved(retired(memory, entries), disk_after, ops, new, reservation),
{
    let after = retired(memory, entries);
    assert forall|i: int| 0 <= i < ops.len() && #[trigger] new[i] implies held_at(
        after,
        ops,
        i,
        reservation,
    ) by {
        assert(held_at(memory, ops, i, reservation));
        assert(after.contains_key(key_at(ops, i)));
    }
    assert forall|i: int| 0 <= i < ops.len() implies #[trigger] covered(after, disk_after, ops, new, i) by {
        assert(covered(memory, disk, ops, new, i));
        if known_at(memory, disk, ops, i) {
            law_retired_entries_stay_known(memory, disk, disk_after, entries, key_at(ops, i));
            assert(known_at(after, disk_after, ops, i));
        }
    }
}

/// The new operations of a batch have different keys.
pub proof fn law_new_operations_have_different_keys(
    memory: Map<[u8; 32], DedupEntry>,
    disk: Map<[u8; 32], [u8; 32]>,
    ops: Seq<OperationView>,
    reservation: u64,
)
    ensures
        preflight(memory, ops, looked_up(ops, disk), reservation).1 matches PreflightView::Ready(new)
            ==> forall|i: int, j: int|
            0 <= i < j < ops.len() && #[trigger] new[i] && #[trigger] new[j] ==> key_at(ops, i)
                != key_at(ops, j),
{
    let order = visit_order(batch_keys(ops), firsts(ops));
    lemma_visited(ops);
    lemma_reserving(memory, ops, looked_up(ops, disk), order, reservation);
}

// ---------------------------------------------------------------- when a batch is refused
/// What the index says to an operation of a batch, as it stands.
pub open spec fn said_to(
    memory: Map<[u8; 32], DedupEntry>,
    disk: Map<[u8; 32], [u8; 32]>,
    ops: Seq<OperationView>,
    i: int,
) -> Verdict {
    verdict(memory.get(key_at(ops, i)), disk.get(key_at(ops, i)), op_fingerprint(ops[i]))
}

/// Whether different identifiers of a batch have different keys.
pub open spec fn keys_tell_apart(ops: Seq<OperationView>) -> bool {
    forall|i: int, j: int|
        0 <= i < j < ops.len() && (#[trigger] ops[i]).operation_id != (#[trigger] ops[j]).operation_id
            ==> key_at(ops, i) != key_at(ops, j)
}

/// Whether an operation stands against a batch: an earlier one of the batch, or what
/// the index has under its identifier, says something else.
pub open spec fn stands_against(
    memory: Map<[u8; 32], DedupEntry>,
    disk: Map<[u8; 32], [u8; 32]>,
    ops: Seq<OperationView>,
    i: int,
) -> bool {
    differs(ops, i) || said_to(memory, disk, ops, i) is Taken
}

/// Why the reservation of a batch stops.
proof fn lemma_stops(
    memory: Map<[u8; 32], DedupEntry>,
    disk: Map<[u8; 32], [u8; 32]>,
    ops: Seq<OperationView>,
    order: Seq<int>,
    reservation: u64,
)
    requires
        keys_tell_apart(ops),
        order.no_duplicates(),
        forall|i: int| #[trigger] order.contains(i) ==> 0 <= i < ops.len() && is_first(ops, i),
    ensures
        match reserving(memory, ops, looked_up(ops, disk), order, reservation).stop {
            None => true,
            Some(Stop::Wait(other)) => exists|i: int| #[trigger]
                order.contains(i) && said_to(memory, disk, ops, i) == Verdict::Held(other),
            Some(Stop::Conflict(i)) => order.contains(i) && said_to(memory, disk, ops, i) is Taken,
        },
    decreases order.len(),
{
    if order.len() > 0 {
        let stored = looked_up(ops, disk);
        let part = order.drop_last();
        let last = order.last();
        let before = reserving(memory, ops, stored, part, reservation);
        assert(order.contains(last)) by {
            assert(order[order.len() - 1] == last);
        }
        assert forall|i: int| #[trigger] part.contains(i) implies order.contains(i) && i != last by {
            let p = choose|p: int| 0 <= p < part.len() && part[p] == i;
            assert(order[p] == i);
            assert(order[order.len() - 1] == last);
        }
        assert(part.no_duplicates()) by {
            assert forall|p: int, q: int| 0 <= p < part.len() && 0 <= q < part.len() && p != q implies part[p]
                != part[q] by {
                assert(order[p] != order[q]);
            }
        }
        lemma_stops(memory, disk, ops, part, reservation);
        lemma_reserving(memory, ops, stored, part, reservation);
        let key = key_at(ops, last);
        assert(stored[last] == disk.get(key));
        if before.stop is None {
            if before.memory.contains_key(key) && !memory.contains_key(key) {
                let i = choose|i: int|
                    0 <= i < ops.len() && #[trigger] before.new[i] && key_at(ops, i) == key;
                assert(part.contains(i));
                assert(is_first(ops, i) && is_first(ops, last));
                assert(ops[i].operation_id != ops[last].operation_id);
            }
            assert(before.memory.get(key) == memory.get(key));
            assert(verdict(before.memory.get(key), stored[last], op_fingerprint(ops[last])) == said_to(
                memory,
                disk,
                ops,
                last,
            ));
        } else if let Some(Stop::Wait(other)) = before.stop {
            let i = choose|i: int| #[trigger]
                part.contains(i) && said_to(memory, disk, ops, i) == Verdict::Held(other);
            assert(order.contains(i));
        }
    }
}

/// An operation that contradicts none before it is told the same as the first one
/// with its identifier.
proof fn lemma_said_to_first(
    memory: Map<[u8; 32], DedupEntry>,
    disk: Map<[u8; 32], [u8; 32]>,
    ops: Seq<OperationView>,
    i: int,
) -> (j: int)
    requires
        0 <= i < ops.len(),
        !differs(ops, i),
    ensures
        0 <= j <= i,
        is_first(ops, j),
        ops[j].operation_id == ops[i].operation_id,
        said_to(memory, disk, ops, j) == said_to(memory, disk, ops, i),
{
    let j = lemma_has_first(ops, i);
    if j < i && op_fingerprint(ops[j]) != op_fingerprint(ops[i]) {
        assert(differs(ops, i));
    }
    j
}

/// Whether an operation lets its batch go on: it contradicts none before it, and the
/// index knows it or nothing of it; it is new where nothing is known of it and it
/// comes first.
pub open spec fn passes(
    memory: Map<[u8; 32], DedupEntry>,
    disk: Map<[u8; 32], [u8; 32]>,
    ops: Seq<OperationView>,
    new: Seq<bool>,
    i: int,
) -> bool {
    let said = said_to(memory, disk, ops, i);
    &&& !differs(ops, i)
    &&& said is Known || said is Fresh
    &&& new[i] <==> is_first(ops, i) && said is Fresh
}

proof fn lemma_passes(
    memory: Map<[u8; 32], DedupEntry>,
    disk: Map<[u8; 32], [u8; 32]>,
    ops: Seq<OperationView>,
    order: Seq<int>,
    end: Reserving,
    reservation: u64,
    i: int,
)
    requires
        reserved_so_far(memory, ops, looked_up(ops, disk), order, reservation, end),
        forall|i: int| #[trigger] order.contains(i) <==> 0 <= i < ops.len() && is_first(ops, i),
        end.stop is None,
        0 <= i < ops.len(),
        !differs(ops, i),
    ensures
        passes(memory, disk, ops, end.new, i),
{
    let stored = looked_up(ops, disk);
    let j = lemma_said_to_first(memory, disk, ops, i);
    assert(order.contains(j));
    assert(stored[j] == disk.get(key_at(ops, j)));
    assert(stored[i] == disk.get(key_at(ops, i)));
    if end.new[j] {
        assert(said_to(memory, disk, ops, j) is Fresh);
    } else {
        assert(said_to(memory, disk, ops, j) is Known);
    }
    if end.new[i] {
        assert(order.contains(i));
    }
    if is_first(ops, i) && j != i {
        assert(ops[j].operation_id != ops[i].operation_id);
    }
}

/// What a batch is answered, and why. It goes on where the index knows each of its
/// operations or nothing of it, and none contradicts an earlier one; those that
/// nothing is known of are new where they come first. It waits only where another
/// batch holds one of its operations, and it is refused only on account of an
/// operation that stands against it. A batch that does not go on changes nothing.
pub proof fn law_answer_to_a_batch(
    memory: Map<[u8; 32], DedupEntry>,
    disk: Map<[u8; 32], [u8; 32]>,
    ops: Seq<OperationView>,
    reservation: u64,
)
    requires
        keys_tell_apart(ops),
    ensures
        ({
            let (after, answer) = preflight(memory, ops, looked_up(ops, disk), reservation);
            match answer {
                PreflightView::Ready(new) => forall|i: int|
                    0 <= i < ops.len() ==> #[trigger] passes(memory, disk, ops, new, i),
                PreflightView::Wait(other) => after == memory && exists|i: int|
                    0 <= i < ops.len() && #[trigger] said_to(memory, disk, ops, i) == Verdict::Held(
                        other,
                    ),
                PreflightView::Conflict(id) => after == memory && exists|i: int|
                    0 <= i < ops.len() && (#[trigger] ops[i]).operation_id == id && stands_against(
                        memory,
                        disk,
                        ops,
                        i,
                    ),
            }
        }),
{
    let stored = looked_up(ops, disk);
    let order = visit_order(batch_keys(ops), firsts(ops));
    let end = reserving(memory, ops, stored, order, reservation);
    lemma_visited(ops);
    lemma_visit_order(batch_keys(ops), firsts(ops));
    lemma_reserving(memory, ops, stored, order, reservation);
    lemma_first_difference(ops, ops.len() as int);
    match first_difference(ops, ops.len() as int) {
        Some(i) => {
            assert(stands_against(memory, disk, ops, i));
        },
        None => {
            lemma_stops(memory, disk, ops, order, reservation);
            match end.stop {
                None => {
                    assert forall|i: int| 0 <= i < ops.len() implies #[trigger] passes(
                        memory,
                        disk,
                        ops,
                        end.new,
                        i,
                    ) by {
                        lemma_passes(memory, disk, ops, order, end, reservation, i);
                    }
                },
                Some(Stop::Wait(other)) => {
                    let i = choose|i: int| #[trigger]
                        order.contains(i) && said_to(memory, disk, ops, i) == Verdict::Held(other);
                    assert(said_to(memory, disk, ops, i) == Verdict::Held(other));
                },
                Some(Stop::Conflict(i)) => {
                    assert(order.contains(i));
                    assert(stands_against(memory, disk, ops, i));
                },
            }
        },
    }
}

/// A batch that need not wait for another is refused exactly where one of its
/// operations stands against it, on account of such an operation, and then
/// nothing of it stays reserved.
pub proof fn law_batch_is_refused_exactly_for_other_content(
    memory: Map<[u8; 32], DedupEntry>,
    disk: Map<[u8; 32], [u8; 32]>,
    ops: Seq<OperationView>,
    reservation: u64,
)
    requires
        keys_tell_apart(ops),
        forall|i: int| 0 <= i < ops.len() ==> !(#[trigger] said_to(memory, disk, ops, i) is Held),
    ensures
        ({
            let (after, answer) = preflight(memory, ops, looked_up(ops, disk), reservation);
            &&& answer !is Wait
            &&& answer is Conflict <==> exists|i: int|
                0 <= i < ops.len() && #[trigger] stands_against(memory, disk, ops, i)
            &&& answer matches PreflightView::Conflict(id) ==> after == memory && exists|i: int|
                0 <= i < ops.len() && (#[trigger] ops[i]).operation_id == id && stands_against(
                    memory,
                    disk,
                    ops,
                    i,
                )
        }),
{
    let (after, answer) = preflight(memory, ops, looked_up(ops, disk), reservation);
    law_answer_to_a_batch(memory, disk, ops, reservation);
    if let PreflightView::Ready(new) = answer {
        assert forall|i: int| 0 <= i < ops.len() implies !#[trigger] stands_against(
            memory,
            disk,
            ops,
            i,
        ) by {
            assert(passes(memory, disk, ops, new, i));
        }
    }
    if let PreflightView::Conflict(id) = answer {
        let i = choose|i: int|
            0 <= i < ops.len() && (#[trigger] ops[i]).operation_id == id && stands_against(
                memory,
                disk,
                ops,
                i,
            );
        assert(stands_against(memory, disk, ops, i));
    }
}

/// Where no other batch is on its way, a batch never waits, and is refused exactly
/// where one of its operations contradicts an earlier one or is committed with
/// something else; then nothing of it stays reserved.
pub proof fn law_lone_batch_is_refused_exactly_for_other_content(
    memory: Map<[u8; 32], DedupEntry>,
    disk: Map<[u8; 32], [u8; 32]>,
    ops: Seq<OperationView>,
    reservation: u64,
)
    requires
        nothing_pending(memory),
        keys_tell_apart(ops),
    ensures
        ({
            let (after, answer) = preflight(memory, ops, looked_up(ops, disk), reservation);
            &&& answer !is Wait
            &&& answer is Conflict <==> exists|i: int|
                #![trigger ops[i]]
                0 <= i < ops.len() && (differs(ops, i) || (known(memory, disk, key_at(ops, i)) is Some
                    && !known_at(memory, disk, ops, i)))
            &&& answer is Conflict ==> after == memory
        }),
{
    let (after, answer) = preflight(memory, ops, looked_up(ops, disk), reservation);
    assert forall|i: int| 0 <= i < ops.len() implies !(#[trigger] said_to(memory, disk, ops, i) is Held) && (
    stands_against(memory, disk, ops, i) <==> differs(ops, i) || (known(
        memory,
        disk,
        key_at(ops, i),
    ) is Some && !known_at(memory, disk, ops, i))) by {
        if memory.contains_key(key_at(ops, i)) {
            assert(memory[key_at(ops, i)] is Committed);
        }
    }
    law_batch_is_refused_exactly_for_other_content(memory, disk, ops, reservation);
    if answer is Conflict {
        let i = choose|i: int|
            0 <= i < ops.len() && #[trigger] stands_against(memory, disk, ops, i);
        assert(!(said_to(memory, disk, ops, i) is Held));
        assert(ops[i] == ops[i]);
    }
    if exists|i: int|
        #![trigger ops[i]]
        0 <= i < ops.len() && (differs(ops, i) || (known(memory, disk, key_at(ops, i)) is Some
            && !known_at(memory, disk, ops, i))) {
        let i = choose|i: int|
            #![trigger ops[i]]
            0 <= i < ops.len() && (differs(ops, i) || (known(memory, disk, key_at(ops, i)) is Some
                && !known_at(memory, disk, ops, i)));
        assert(!(said_to(memory, disk, ops, i) is Held));
        assert(stands_against(memory, disk, ops, i));
    }
}

// ---------------------------------------------------------------- refusals by content
/// Whether two operations have the same identifier and say something else.
pub open spec fn contradicts(a: OperationView, b: OperationView) -> bool {
    a.operation_id == b.operation_id && !same_content(a, b)
}

/// The fingerprint that stands under a key: of what is committed, or of what a batch
/// on its way holds.
pub open spec fn claimed(
    memory: Map<[u8; 32], DedupEntry>,
    disk: Map<[u8; 32], [u8; 32]>,
    key: [u8; 32],
) -> Option<[u8; 32]> {
    match memory.get(key) {
        Some(DedupEntry::Committed(print)) => Some(print),
        Some(DedupEntry::Pending { fingerprint, reservation }) => Some(fingerprint),
        None => disk.get(key),
    }
}

/// Whether exactly the operations in `prior` are committed or reserved, with what
/// they say.
pub open spec fn remembers(
    memory: Map<[u8; 32], DedupEntry>,
    disk: Map<[u8; 32], [u8; 32]>,
    prior: Seq<OperationView>,
) -> bool {
    &&& forall|p: int|
        0 <= p < prior.len() ==> claimed(memory, disk, #[trigger] key_at(prior, p)) == Some(
            op_fingerprint(prior[p]),
        )
    &&& forall|key: [u8; 32]| #[trigger]
        claimed(memory, disk, key) is Some ==> key_before(prior, prior.len() as int, key)
}

/// Whether digests tell all of these operations apart.
pub open spec fn all_told_apart(ops: Seq<OperationView>) -> bool {
    forall|i: int, j: int|
        0 <= i < ops.len() && 0 <= j < ops.len() ==> told_apart(#[trigger] ops[i], #[trigger] ops[j])
}

/// Whether two of the operations contradict each other.
pub open spec fn has_contradiction(ops: Seq<OperationView>) -> bool {
    exists|i: int, j: int|
        0 <= j < i < ops.len() && contradicts(#[trigger] ops[j], #[trigger] ops[i])
}

/// A batch is refused only where an operation of it has the identifier of an earlier
/// one, or of one that is committed or reserved, and says something else; it is
/// refused on account of such an identifier, and nothing of it stays reserved. Where
/// there is such an operation the batch does not go on, and where it need not wait
/// for another batch it is refused.
pub proof fn law_refusal_by_content(
    memory: Map<[u8; 32], DedupEntry>,
    disk: Map<[u8; 32], [u8; 32]>,
    prior: Seq<OperationView>,
    ops: Seq<OperationView>,
    reservation: u64,
)
    requires
        remembers(memory, disk, prior),
        all_told_apart(prior + ops),
    ensures
        ({
            let all = prior + ops;
            let (after, answer) = preflight(memory, ops, looked_up(ops, disk), reservation);
            &&& answer is Ready ==> !has_contradiction(all)
            &&& answer matches PreflightView::Conflict(id) ==> after == memory && exists|i: int, j: int|
                0 <= j < i < all.len() && id == all[i].operation_id && contradicts(
                    #[trigger] all[j],
                    #[trigger] all[i],
                )
            &&& (forall|i: int|
                0 <= i < ops.len() ==> !(#[trigger] said_to(memory, disk, ops, i) is Held)) ==> answer
                !is Wait && (answer is Conflict <==> has_contradiction(all))
        }),
{
    let all = prior + ops;
    let m = prior.len() as int;
    let (after, answer) = preflight(memory, ops, looked_up(ops, disk), reservation);
    assert forall|i: int, j: int|
        0 <= i < j < ops.len() && (#[trigger] ops[i]).operation_id != (#[trigger] ops[j]).operation_id implies key_at(
        ops,
        i,
    ) != key_at(ops, j) by {
        assert(told_apart(all[m + i], all[m + j]));
    }
    law_answer_to_a_batch(memory, disk, ops, reservation);
    if let PreflightView::Conflict(id) = answer {
        let i = choose|i: int|
            0 <= i < ops.len() && (#[trigger] ops[i]).operation_id == id && stands_against(
                memory,
                disk,
                ops,
                i,
            );
        let j = lemma_against_is_contradiction(memory, disk, prior, ops, i);
        assert(all[m + i].operation_id == id);
        assert(contradicts(all[j], all[m + i]));
    }
    if let PreflightView::Ready(new) = answer {
        if has_contradiction(all) {
            let (i, j) = choose|i: int, j: int|
                0 <= j < i < all.len() && contradicts(#[trigger] all[j], #[trigger] all[i]);
            lemma_contradiction_is_against(memory, disk, prior, ops, i, j);
            assert(passes(memory, disk, ops, new, i - m));
        }
    }
}

proof fn lemma_against_is_contradiction(
    memory: Map<[u8; 32], DedupEntry>,
    disk: Map<[u8; 32], [u8; 32]>,
    prior: Seq<OperationView>,
    ops: Seq<OperationView>,
    i: int,
) -> (j: int)
    requires
        remembers(memory, disk, prior),
        all_told_apart(prior + ops),
        0 <= i < ops.len(),
        stands_against(memory, disk, ops, i),
    ensures
        0 <= j < prior.len() + i,
        contradicts((prior + ops)[j], (prior + ops)[prior.len() + i]),
{
    let all = prior + ops;
    let m = prior.len() as int;
    if differs(ops, i) {
        let j = choose|j: int|
            0 <= j < i && (#[trigger] ops[j]).operation_id == ops[i].operation_id && op_fingerprint(
                ops[j],
            ) != op_fingerprint(ops[i]);
        assert(told_apart(all[m + j], all[m + i]));
        law_digests_stand_for_operations(ops[j], ops[i]);
        m + j
    } else {
        let key = key_at(ops, i);
        assert(claimed(memory, disk, key) is Some);
        let p = choose|p: int| 0 <= p < m && #[trigger] key_at(prior, p) == key;
        assert(told_apart(all[p], all[m + i]));
        law_digests_stand_for_operations(prior[p], ops[i]);
        p
    }
}

proof fn lemma_contradiction_is_against(
    memory: Map<[u8; 32], DedupEntry>,
    disk: Map<[u8; 32], [u8; 32]>,
    prior: Seq<OperationView>,
    ops: Seq<OperationView>,
    i: int,
    j: int,
)
    requires
        remembers(memory, disk, prior),
        all_told_apart(prior + ops),
        0 <= j < i < (prior + ops).len(),
        contradicts((prior + ops)[j], (prior + ops)[i]),
    ensures
        i >= prior.len(),
        stands_against(memory, disk, ops, i - prior.len()),
{
    let all = prior + ops;
    let m = prior.len() as int;
    assert(told_apart(all[j], all[i]));
    law_digests_stand_for_operations(all[j], all[i]);
    if i < m {
        assert(key_at(prior, i) == key_at(prior, j));
    } else if j < m {
        assert(key_at(prior, j) == key_at(ops, i - m));
    } else {
        assert(all[j] == ops[j - m]);
        assert(all[i] == ops[i - m]);
        assert(differs(ops, i - m));
    }
}

// ---------------------------------------------------------------- which operation decides
/// A batch that says two things under one identifier is refused at once, on account
/// of the first operation that contradicts an earlier one, and nothing is reserved.
pub proof fn law_first_contradiction_decides(
    memory: Map<[u8; 32], DedupEntry>,
    ops: Seq<OperationView>,
    stored: Seq<Option<[u8; 32]>>,
    reservation: u64,
    i: int,
    j: int,
)
    requires
        0 <= j < i < ops.len(),
        ops[j].operation_id == ops[i].operation_id,
        op_fingerprint(ops[j]) != op_fingerprint(ops[i]),
        forall|a: int, b: int|
            0 <= a < b < i && (#[trigger] ops[a]).operation_id == (#[trigger] ops[b]).operation_id
                ==> op_fingerprint(ops[a]) == op_fingerprint(ops[b]),
    ensures
        preflight(memory, ops, stored, reservation) == (
            memory,
            PreflightView::Conflict(ops[i].operation_id),
        ),
{
    lemma_first_difference(ops, ops.len() as int);
    assert(differs(ops, i));
    assert forall|b: int| 0 <= b < i implies !differs(ops, b) by {
        if differs(ops, b) {
            let a = choose|a: int|
                0 <= a < b && (#[trigger] ops[a]).operation_id == ops[b].operation_id
                    && op_fingerprint(ops[a]) != op_fingerprint(ops[b]);
            assert(ops[a].operation_id == ops[b].operation_id);
        }
    }
}

proof fn lemma_first_stop(
    memory: Map<[u8; 32], DedupEntry>,
    disk: Map<[u8; 32], [u8; 32]>,
    ops: Seq<OperationView>,
    order: Seq<int>,
    at: int,
    reservation: u64,
)
    requires
        keys_tell_apart(ops),
        order.no_duplicates(),
        forall|i: int| #[trigger] order.contains(i) ==> 0 <= i < ops.len() && is_first(ops, i),
        0 <= at <= order.len(),
        forall|p: int|
            0 <= p < at && p < order.len() ==> {
                let said = said_to(memory, disk, ops, #[trigger] order[p]);
                said is Known || said is Fresh
            },
        at < order.len() ==> {
            let said = said_to(memory, disk, ops, order[at]);
            said is Held || said is Taken
        },
    ensures
        reserving(memory, ops, looked_up(ops, disk), order, reservation).stop == if at < order.len() {
            match said_to(memory, disk, ops, order[at]) {
                Verdict::Held(other) => Some(Stop::Wait(other)),
                _ => Some(Stop::Conflict(order[at])),
            }
        } else {
            None
        },
    decreases order.len(),
{
    if order.len() > 0 {
        let stored = looked_up(ops, disk);
        let part = order.drop_last();
        let last = order.last();
        let before = reserving(memory, ops, stored, part, reservation);
        assert(order.contains(last)) by {
            assert(order[order.len() - 1] == last);
        }
        assert forall|i: int| #[trigger] part.contains(i) implies order.contains(i) && i != last by {
            let p = choose|p: int| 0 <= p < part.len() && part[p] == i;
            assert(order[p] == i);
            assert(order[order.len() - 1] == last);
        }
        assert(part.no_duplicates()) by {
            assert forall|p: int, q: int| 0 <= p < part.len() && 0 <= q < part.len() && p != q implies part[p]
                != part[q] by {
                assert(order[p] != order[q]);
            }
        }
        assert forall|p: int| 0 <= p < part.len() implies #[trigger] part[p] == order[p] by {}
        let here = if at < part.len() {
            at
        } else {
            part.len() as int
        };
        lemma_first_stop(memory, disk, ops, part, here, reservation);
        if here == part.len() {
            lemma_reserving(memory, ops, stored, part, reservation);
            let key = key_at(ops, last);
            assert(stored[last] == disk.get(key));
            if before.memory.contains_key(key) && !memory.contains_key(key) {
                let i = choose|i: int|
                    0 <= i < ops.len() && #[trigger] before.new[i] && key_at(ops, i) == key;
                assert(part.contains(i));
                assert(is_first(ops, i) && is_first(ops, last));
                assert(ops[i].operation_id != ops[last].operation_id);
            }
            assert(before.memory.get(key) == memory.get(key));
            assert(verdict(before.memory.get(key), stored[last], op_fingerprint(ops[last])) == said_to(
                memory,
                disk,
                ops,
                last,
            ));
            assert(order[order.len() - 1] == last);
        }
    }
}

/// Of a batch that does not contradict itself, the first operation in the order of the
/// visits that is held or taken decides: the batch waits for the reservation that
/// holds it, or is refused on its account. Where no operation is, the batch is ready.
pub proof fn law_first_stop_decides(
    memory: Map<[u8; 32], DedupEntry>,
    disk: Map<[u8; 32], [u8; 32]>,
    ops: Seq<OperationView>,
    reservation: u64,
    at: int,
)
    requires
        keys_tell_apart(ops),
        forall|i: int, j: int|
            0 <= i < j < ops.len() && (#[trigger] ops[i]).operation_id == (
            #[trigger] ops[j]).operation_id ==> op_fingerprint(ops[i]) == op_fingerprint(ops[j]),
        ({
            let order = visit_order(batch_keys(ops), firsts(ops));
            &&& 0 <= at <= order.len()
            &&& forall|p: int|
                0 <= p < at && p < order.len() ==> {
                    let said = said_to(memory, disk, ops, #[trigger] order[p]);
                    said is Known || said is Fresh
                }
            &&& at < order.len() ==> {
                let said = said_to(memory, disk, ops, order[at]);
                said is Held || said is Taken
            }
        }),
    ensures
        ({
            let order = visit_order(batch_keys(ops), firsts(ops));
            let (after, answer) = preflight(memory, ops, looked_up(ops, disk), reservation);
            if at < order.len() {
                &&& after == memory
                &&& said_to(memory, disk, ops, order[at]) matches Verdict::Held(other) ==> answer
                    == PreflightView::Wait(other)
                &&& said_to(memory, disk, ops, order[at]) is Taken ==> answer
                    == PreflightView::Conflict(ops[order[at]].operation_id)
            } else {
                answer is Ready
            }
        }),
{
    let order = visit_order(batch_keys(ops), firsts(ops));
    lemma_visit_order(batch_keys(ops), firsts(ops));
    lemma_visited(ops);
    lemma_first_difference(ops, ops.len() as int);
    assert forall|i: int| 0 <= i < ops.len() implies !differs(ops, i) by {
        if differs(ops, i) {
            let j = choose|j: int|
                0 <= j < i && (#[trigger] ops[j]).operation_id == ops[i].operation_id
                    && op_fingerprint(ops[j]) != op_fingerprint(ops[i]);
            assert(ops[j].operation_id == ops[i].operation_id);
        }
    }
    lemma_first_stop(memory, disk, ops, order, at, reservation);
}

/// Operations are compared by their identifiers alone: the first of a batch with its
/// identifier is flagged, and no other.
pub proof fn law_first_of_its_identifier_is_flagged(ops: Seq<OperationView>, i: int)
    requires
        0 <= i < ops.len(),
    ensures
        firsts(ops).len() == ops.len(),
        firsts(ops)[i] <==> (forall|j: int|
            0 <= j < i ==> (#[trigger] ops[j]).operation_id != ops[i].operation_id),
        batch_keys(ops).len() == ops.len(),
        batch_keys(ops)[i] == id_key(ops[i].operation_id),
{
}

// ---------------------------------------------------------------- what the end of a batch hands on
proof fn lemma_handed_on(
    memory: Map<[u8; 32], DedupEntry>,
    keys: Seq<[u8; 32]>,
    order: Seq<int>,
    prints: Seq<[u8; 32]>,
    reservation: u64,
    committed: bool,
)
    requires
        forall|p: int|
            0 <= p < order.len() ==> memory.get(keys[#[trigger] order[p]]) == Some(
                DedupEntry::Pending { fingerprint: prints[order[p]], reservation },
            ),
        forall|p: int, q: int|
            0 <= p < q < order.len() ==> keys[#[trigger] order[p]] != keys[#[trigger] order[q]],
    ensures
        ({
            let end = finishing(memory, keys, order, committed);
            &&& end.released == Seq::new(order.len(), |p: int| reservation)
            &&& end.disk == if committed {
                Seq::new(order.len(), |p: int| (keys[order[p]], prints[order[p]]))
            } else {
                Seq::empty()
            }
        }),
    decreases order.len(),
{
    let end = finishing(memory, keys, order, committed);
    if order.len() > 0 {
        let part = order.drop_last();
        let last = order.last();
        let before = finishing(memory, keys, part, committed);
        assert(order[order.len() - 1] == last);
        lemma_handed_on(memory, keys, part, prints, reservation, committed);
        lemma_committing(memory, keys, part);
        lemma_cancelling(memory, keys, part);
        let key = keys[last];
        assert(!touched(keys, part, key)) by {
            if touched(keys, part, key) {
                let p = choose|p: int| 0 <= p < part.len() && keys[#[trigger] part[p]] == key;
                assert(keys[order[p]] != keys[order[order.len() - 1]]);
            }
        }
        assert(memory.contains_key(key));
        assert(before.memory.contains_key(key));
        assert(before.memory.get(key) == memory.get(key));
    }
    assert(end.released =~= Seq::new(order.len(), |p: int| reservation));
    assert(end.disk =~= if committed {
        Seq::new(order.len(), |p: int| (keys[order[p]], prints[order[p]]))
    } else {
        Seq::empty()
    });
}

/// At the end of a reserved batch the reservation is let go once for each new
/// operation. Where the batch is committed, the disk is handed the key and the
/// fingerprint of each new operation, in the order of the visits, and nothing else;
/// where it is not, nothing at all.
pub proof fn law_end_hands_on_each_new_operation(
    memory: Map<[u8; 32], DedupEntry>,
    disk: Map<[u8; 32], [u8; 32]>,
    ops: Seq<OperationView>,
    new: Seq<bool>,
    reservation: u64,
    committed: bool,
)
    requires
        is_reserved(memory, disk, ops, new, reservation),
        forall|i: int, j: int|
            0 <= i < j < ops.len() && #[trigger] new[i] && #[trigger] new[j] ==> key_at(ops, i)
                != key_at(ops, j),
    ensures
        ({
            let end = finished(memory, ops, new, committed);
            let order = visit_order(batch_keys(ops), new);
            &&& end.released == Seq::new(order.len(), |p: int| reservation)
            &&& !committed ==> end.disk.len() == 0
            &&& committed ==> end.disk == Seq::new(
                order.len(),
                |p: int| (id_key(ops[order[p]].operation_id), op_fingerprint(ops[order[p]])),
            )
        }),
{
    let keys = batch_keys(ops);
    let order = visit_order(keys, new);
    let prints = ops.map_values(|op: OperationView| op_fingerprint(op));
    lemma_flagged(ops, new);
    lemma_visit_order(keys, new);
    assert forall|p: int| 0 <= p < order.len() implies 0 <= #[trigger] order[p] < ops.len()
        && new[order[p]] by {
        assert(order.contains(order[p]));
    }
    assert forall|p: int| 0 <= p < order.len() implies memory.get(keys[#[trigger] order[p]]) == Some(
        DedupEntry::Pending { fingerprint: prints[order[p]], reservation },
    ) by {
        assert(new[order[p]]);
        assert(held_at(memory, ops, order[p], reservation));
    }
    assert forall|p: int, q: int| 0 <= p < q < order.len() implies keys[#[trigger] order[p]]
        != keys[#[trigger] order[q]] by {
        let (a, b) = (order[p], order[q]);
        assert(new[a] && new[b]);
        assert(a != b);
        if a < b {
            assert(key_at(ops, a) != key_at(ops, b));
        } else {
            assert(key_at(ops, b) != key_at(ops, a));
        }
    }
    lemma_handed_on(memory, keys, order, prints, reservation, committed);
    if committed {
        assert(finished(memory, ops, new, committed).disk =~= Seq::new(
            order.len(),
            |p: int| (id_key(ops[order[p]].operation_id), op_fingerprint(ops[order[p]])),
        ));
    }
}

/// The end of a batch, key by key, whatever the index holds: a key that is not that of
/// a new operation is left alone; under the key of a new one, what was on its way is
/// committed with the fingerprint it had, or else forgotten.
pub proof fn law_end_of_a_batch_key_by_key(
    memory: Map<[u8; 32], DedupEntry>,
    ops: Seq<OperationView>,
    new: Seq<bool>,
    committed: bool,
    key: [u8; 32],
)
    requires
        new.len() == ops.len(),
    ensures
        ({
            let end = finished(memory, ops, new, committed).memory;
            let ours = exists|i: int|
                0 <= i < ops.len() && #[trigger] new[i] && id_key(ops[i].operation_id) == key;
            &&& !ours ==> end.get(key) == memory.get(key)
            &&& ours && !committed ==> !end.contains_key(key)
            &&& ours && committed ==> match memory.get(key) {
                Some(DedupEntry::Pending { fingerprint, reservation }) => end.get(key) == Some(
                    DedupEntry::Committed(fingerprint),
                ),
                other => end.get(key) == other,
            }
        }),
{
    let keys = batch_keys(ops);
    let order = visit_order(keys, new);
    let end = finished(memory, ops, new, committed).memory;
    lemma_flagged(ops, new);
    lemma_committing(memory, keys, order);
    lemma_cancelling(memory, keys, order);
    lemma_touched(ops, new, key);
    let ours = exists|i: int|
        0 <= i < ops.len() && #[trigger] new[i] && id_key(ops[i].operation_id) == key;
    assert(touched(keys, order, key) <==> ours) by {
        if ours {
            let i = choose|i: int|
                0 <= i < ops.len() && #[trigger] new[i] && id_key(ops[i].operation_id) == key;
            assert(new[i] && key_at(ops, i) == key);
        }
        if touched(keys, order, key) {
            let i = choose|i: int| 0 <= i < ops.len() && #[trigger] new[i] && key_at(ops, i) == key;
            assert(new[i] && id_key(ops[i].operation_id) == key);
        }
    }
    if memory.contains_key(key) {
        assert(end.contains_key(key) || !committed);
    } else {
        assert(!end.contains_key(key));
    }
}

/// A batch that is ready has reserved the keys of its new operations, each with the
/// fingerprint of its operation, and changed nothing else of the index; a batch that is
/// not ready has changed nothing at all.
pub proof fn law_reserving_changes_the_new_keys_alone(
    memory: Map<[u8; 32], DedupEntry>,
    ops: Seq<OperationView>,
    stored: Seq<Option<[u8; 32]>>,
    reservation: u64,
    key: [u8; 32],
)
    ensures
        ({
            let (after, answer) = preflight(memory, ops, stored, reservation);
            match answer {
                PreflightView::Ready(new) => {
                    &&& new.len() == ops.len()
                    &&& forall|i: int|
                        0 <= i < ops.len() && #[trigger] new[i] ==> after.get(
                            id_key(ops[i].operation_id),
                        ) == Some(
                            DedupEntry::Pending { fingerprint: op_fingerprint(ops[i]), reservation },
                        ) && !memory.contains_key(id_key(ops[i].operation_id))
                    &&& (forall|i: int|
                        0 <= i < ops.len() && #[trigger] new[i] ==> id_key(ops[i].operation_id) != key)
                        ==> after.get(key) == memory.get(key)
                },
                _ => after == memory,
            }
        }),
{
    let order = visit_order(batch_keys(ops), firsts(ops));
    lemma_visited(ops);
    lemma_reserving(memory, ops, stored, order, reservation);
    let (after, answer) = preflight(memory, ops, stored, reservation);
    if let PreflightView::Ready(new) = answer {
        assert forall|i: int| 0 <= i < ops.len() && #[trigger] new[i] implies after.get(
            id_key(ops[i].operation_id),
        ) == Some(DedupEntry::Pending { fingerprint: op_fingerprint(ops[i]), reservation })
            && !memory.contains_key(id_key(ops[i].operation_id)) by {
            assert(held_at(after, ops, i, reservation));
        }
        if forall|i: int|
            0 <= i < ops.len() && #[trigger] new[i] ==> id_key(ops[i].operation_id) != key {
            if after.contains_key(key) && !memory.contains_key(key) {
                let i = choose|i: int| 0 <= i < ops.len() && #[trigger] new[i] && key_at(ops, i) == key;
                assert(new[i]);
            }
            if memory.contains_key(key) {
                assert(after.contains_key(key) && after[key] == memory[key]);
            }
        }
    }
}

} // verus!
