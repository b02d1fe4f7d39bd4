//! What holds of batches that overlap: however requests come, wait their turn, end
//! and move to the disk, each operation identifier counts once.

use vstd::prelude::*;

use crate::balances::add_ops;
use crate::dedup::{finished, preflight, retired, DedupEntry, PreflightView};
use crate::dedup_laws::{
    covered, held_at, is_new_key, is_reserved, key_at, known, known_at, law_committed_batch_is_known,
    law_end_touches_its_own_keys, law_known_operations_are_duplicates,
    law_new_operations_have_different_keys, law_ready_batch_is_reserved,
    law_reservation_outlives_other_batches, looked_up, nothing_pending,
};
use crate::digest::{id_key, op_fingerprint};
use crate::model::OperationView;
use crate::recovery::has_key;
use crate::state::{new_ops, selected};
use crate::store_laws::{disk_after, distinct_ids, lemma_add_ops_concat, lemma_disk_after};

verus! {

/// A batch that is reserved and on its way.
pub ghost struct Flight {
    pub ops: Seq<OperationView>,
    pub new: Seq<bool>,
    pub reservation: u64,
}

/// What requests have come to.
pub ghost struct Traffic {
    pub memory: Map<[u8; 32], DedupEntry>,
    pub disk: Map<[u8; 32], [u8; 32]>,
    pub published: Map<(Seq<char>, Seq<char>), i64>,
    /// The batches on their way.
    pub flights: Seq<Flight>,
    /// The operations of the batches that were committed, one after another.
    pub taken: Seq<OperationView>,
    /// The operations that were published, one after another.
    pub applied: Seq<OperationView>,
}

/// Something that happens to requests.
pub ghost enum Event {
    /// A batch asks to be reserved.
    Ask { ops: Seq<OperationView>, reservation: u64 },
    /// A batch on its way ends, committed or not.
    End { flight: int, committed: bool },
    /// Committed entries are written to the disk.
    Write { entries: Seq<([u8; 32], [u8; 32])> },
    /// Entries that are on the disk leave the memory.
    Retire { entries: Seq<([u8; 32], [u8; 32])> },
}

/// Whether a batch on its way has a reservation.
pub open spec fn in_use(flights: Seq<Flight>, reservation: u64) -> bool {
    exists|f: int| 0 <= f < flights.len() && (#[trigger] flights[f]).reservation == reservation
}

/// Whether every entry is committed in memory.
pub open spec fn all_committed(
    memory: Map<[u8; 32], DedupEntry>,
    entries: Seq<([u8; 32], [u8; 32])>,
) -> bool {
    forall|e: ([u8; 32], [u8; 32])| #[trigger]
        entries.contains(e) ==> memory.get(e.0) == Some(DedupEntry::Committed(e.1))
}

/// Whether every entry is on the disk.
pub open spec fn all_on_disk(
    disk: Map<[u8; 32], [u8; 32]>,
    entries: Seq<([u8; 32], [u8; 32])>,
) -> bool {
    forall|e: ([u8; 32], [u8; 32])| #[trigger] entries.contains(e) ==> disk.get(e.0) == Some(e.1)
}

/// What requests have come to after one more event. No reservation is given out
/// while it is in use; only what is committed is written to the disk, and only what
/// is on the disk leaves the memory.
pub open spec fn happened(state: Traffic, event: Event) -> Traffic {
    match event {
        Event::Ask { ops, reservation } => {
            let (after, answer) = preflight(
                state.memory,
                ops,
                looked_up(ops, state.disk),
                reservation,
            );
            match answer {
                PreflightView::Ready(new) if !in_use(state.flights, reservation) => Traffic {
                    memory: after,
                    flights: state.flights.push(Flight { ops, new, reservation }),
                    ..state
                },
                _ => state,
            }
        },
        Event::End { flight, committed } => if 0 <= flight < state.flights.len() {
            let Flight { ops, new, reservation } = state.flights[flight];
            let ended = Traffic {
                memory: finished(state.memory, ops, new, committed).memory,
                flights: state.flights.remove(flight),
                ..state
            };
            if committed {
                Traffic {
                    published: add_ops(state.published, new_ops(ops, new)),
                    taken: state.taken + ops,
                    applied: state.applied + new_ops(ops, new),
                    ..ended
                }
            } else {
                ended
            }
        } else {
            state
        },
        Event::Write { entries } => if all_committed(state.memory, entries) {
            Traffic { disk: disk_after(state.disk, entries), ..state }
        } else {
            state
        },
        Event::Retire { entries } => if all_on_disk(state.disk, entries) {
            Traffic { memory: retired(state.memory, entries), ..state }
        } else {
            state
        },
    }
}

/// What events make of a node that knows what `memory` and `disk` hold.
pub open spec fn after_events(
    memory: Map<[u8; 32], DedupEntry>,
    disk: Map<[u8; 32], [u8; 32]>,
    published: Map<(Seq<char>, Seq<char>), i64>,
    events: Seq<Event>,
) -> Traffic
    decreases events.len(),
{
    if events.len() == 0 {
        Traffic {
            memory,
            disk,
            published,
            flights: Seq::empty(),
            taken: Seq::empty(),
            applied: Seq::empty(),
        }
    } else {
        happened(after_events(memory, disk, published, events.drop_last()), events.last())
    }
}

// ---------------------------------------------------------------- what every state keeps
/// Whether a batch on its way is reserved, its new operations with different keys.
pub open spec fn flies(
    memory: Map<[u8; 32], DedupEntry>,
    disk: Map<[u8; 32], [u8; 32]>,
    flight: Flight,
) -> bool {
    &&& is_reserved(memory, disk, flight.ops, flight.new, flight.reservation)
    &&& forall|i: int, j: int|
        0 <= i < j < flight.ops.len() && #[trigger] flight.new[i] && #[trigger] flight.new[j] ==> key_at(
            flight.ops,
            i,
        ) != key_at(flight.ops, j)
}

/// Whether the batches on their way are reserved, each under its own reservation, and
/// the disk holds nothing under a key that a batch holds.
pub open spec fn flights_hold(state: Traffic) -> bool {
    &&& forall|f: int|
        0 <= f < state.flights.len() ==> flies(state.memory, state.disk, #[trigger] state.flights[f])
    &&& forall|f: int, g: int|
        0 <= f < g < state.flights.len() ==> (#[trigger] state.flights[f]).reservation != (
        #[trigger] state.flights[g]).reservation
    &&& forall|k: [u8; 32]| #[trigger]
        state.memory.contains_key(k) && state.memory[k] is Pending ==> !state.disk.contains_key(k)
}

/// Whether what is known is what was known before and what was published since, each
/// key once.
pub open spec fn books_balance(
    memory: Map<[u8; 32], DedupEntry>,
    disk: Map<[u8; 32], [u8; 32]>,
    state: Traffic,
) -> bool {
    &&& forall|k: [u8; 32]|
        known(memory, disk, k) is Some ==> #[trigger] known(state.memory, state.disk, k) == known(
            memory,
            disk,
            k,
        )
    &&& forall|k: [u8; 32]| #[trigger]
        known(state.memory, state.disk, k) is Some <==> known(memory, disk, k) is Some || has_key(
            state.applied,
            state.applied.len() as int,
            k,
        )
    &&& forall|a: int|
        0 <= a < state.applied.len() ==> known(memory, disk, #[trigger] key_at(state.applied, a)) is None
            && known_at(state.memory, state.disk, state.applied, a)
    &&& distinct_ids(state.applied)
    &&& forall|t: int|
        0 <= t < state.taken.len() ==> #[trigger] known_at(state.memory, state.disk, state.taken, t)
}

/// Where the same is known as before, the books still balance.
proof fn lemma_books_kept(
    memory: Map<[u8; 32], DedupEntry>,
    disk: Map<[u8; 32], [u8; 32]>,
    state: Traffic,
    next: Traffic,
)
    requires
        books_balance(memory, disk, state),
        next.applied == state.applied,
        next.taken == state.taken,
        forall|k: [u8; 32]| #[trigger]
            known(next.memory, next.disk, k) == known(state.memory, state.disk, k),
    ensures
        books_balance(memory, disk, next),
{
    assert forall|k: [u8; 32]| known(memory, disk, k) is Some implies #[trigger] known(
        next.memory,
        next.disk,
        k,
    ) == known(memory, disk, k) by {
        assert(known(state.memory, state.disk, k) == known(memory, disk, k));
    }
    assert forall|k: [u8; 32]| #[trigger] known(next.memory, next.disk, k) is Some <==> known(
        memory,
        disk,
        k,
    ) is Some || has_key(next.applied, next.applied.len() as int, k) by {
        assert(known(state.memory, state.disk, k) is Some <==> known(memory, disk, k) is Some || has_key(
            state.applied,
            state.applied.len() as int,
            k,
        ));
    }
    assert forall|a: int| 0 <= a < next.applied.len() implies known(
        memory,
        disk,
        #[trigger] key_at(next.applied, a),
    ) is None && known_at(next.memory, next.disk, next.applied, a) by {
        assert(known(memory, disk, key_at(state.applied, a)) is None);
    }
    assert forall|t: int| 0 <= t < next.taken.len() implies #[trigger] known_at(
        next.memory,
        next.disk,
        next.taken,
        t,
    ) by {
        assert(known_at(state.memory, state.disk, state.taken, t));
    }
}

/// A batch on its way stays on its way where what it holds is still held and the same
/// is known.
proof fn lemma_flies_on(
    memory: Map<[u8; 32], DedupEntry>,
    disk: Map<[u8; 32], [u8; 32]>,
    next_memory: Map<[u8; 32], DedupEntry>,
    next_disk: Map<[u8; 32], [u8; 32]>,
    flight: Flight,
)
    requires
        flies(memory, disk, flight),
        forall|k: [u8; 32]| #[trigger]
            memory.contains_key(k) && memory[k] is Pending ==> next_memory.get(k) == memory.get(k),
        forall|k: [u8; 32]| #[trigger] known(next_memory, next_disk, k) == known(memory, disk, k),
    ensures
        flies(next_memory, next_disk, flight),
{
    let Flight { ops, new, reservation } = flight;
    assert forall|i: int| 0 <= i < ops.len() && #[trigger] new[i] implies held_at(
        next_memory,
        ops,
        i,
        reservation,
    ) by {
        assert(held_at(memory, ops, i, reservation));
        assert(memory.contains_key(key_at(ops, i)));
    }
    assert forall|i: int| 0 <= i < ops.len() implies #[trigger] covered(
        next_memory,
        next_disk,
        ops,
        new,
        i,
    ) by {
        assert(covered(memory, disk, ops, new, i));
        assert(known(next_memory, next_disk, key_at(ops, i)) == known(memory, disk, key_at(ops, i)));
        assert(known_at(memory, disk, ops, i) == known_at(next_memory, next_disk, ops, i));
    }
}

proof fn lemma_ask(
    memory: Map<[u8; 32], DedupEntry>,
    disk: Map<[u8; 32], [u8; 32]>,
    state: Traffic,
    ops: Seq<OperationView>,
    reservation: u64,
)
    requires
        flights_hold(state),
        books_balance(memory, disk, state),
    ensures
        flights_hold(happened(state, Event::Ask { ops, reservation })),
        books_balance(memory, disk, happened(state, Event::Ask { ops, reservation })),
{
    let next = happened(state, Event::Ask { ops, reservation });
    let (after, answer) = preflight(state.memory, ops, looked_up(ops, state.disk), reservation);
    law_ready_batch_is_reserved(state.memory, state.disk, ops, reservation);
    law_new_operations_have_different_keys(state.memory, state.disk, ops, reservation);
    if let PreflightView::Ready(new) = answer {
        if !in_use(state.flights, reservation) {
            let flight = Flight { ops, new, reservation };
            assert(next.flights == state.flights.push(flight));
            assert(next.memory == after);
            assert forall|k: [u8; 32]| #[trigger] known(after, state.disk, k) == known(
                state.memory,
                state.disk,
                k,
            ) by {
                if state.memory.contains_key(k) {
                    assert(after.contains_key(k));
                } else if after.contains_key(k) {
                    let i = choose|i: int| 0 <= i < ops.len() && #[trigger] new[i] && key_at(ops, i) == k;
                    assert(held_at(after, ops, i, reservation));
                    assert(!state.disk.contains_key(k));
                }
            }
            lemma_books_kept(memory, disk, state, next);
            assert forall|f: int| 0 <= f < next.flights.len() implies flies(
                after,
                state.disk,
                #[trigger] next.flights[f],
            ) by {
                if f < state.flights.len() {
                    assert(next.flights[f] == state.flights[f]);
                    assert(flies(state.memory, state.disk, state.flights[f]));
                    lemma_flies_on(state.memory, state.disk, after, state.disk, state.flights[f]);
                }
            }
            assert forall|f: int, g: int| 0 <= f < g < next.flights.len() implies (
            #[trigger] next.flights[f]).reservation != (#[trigger] next.flights[g]).reservation by {
                assert(next.flights[f] == state.flights[f]);
                if g < state.flights.len() {
                    assert(next.flights[g] == state.flights[g]);
                }
            }
            assert forall|k: [u8; 32]| #[trigger]
                after.contains_key(k) && after[k] is Pending implies !state.disk.contains_key(k) by {
                if !state.memory.contains_key(k) {
                    let i = choose|i: int| 0 <= i < ops.len() && #[trigger] new[i] && key_at(ops, i) == k;
                    assert(!state.disk.contains_key(key_at(ops, i)));
                }
            }
        }
    }
}

// ---------------------------------------------------------------- the end of a batch
/// Whether an operation is one of the first `n` of a batch that are flagged as new.
spec fn is_one_of(ops: Seq<OperationView>, new: Seq<bool>, n: int, op: OperationView) -> bool {
    exists|i: int| 0 <= i < n && #[trigger] new[i] && ops[i] == op
}

/// The operations that are flagged as new, one by one.
proof fn lemma_selected(ops: Seq<OperationView>, new: Seq<bool>, n: int)
    requires
        0 <= n <= ops.len(),
        forall|i: int, j: int|
            0 <= i < j < ops.len() && #[trigger] new[i] && #[trigger] new[j] ==> key_at(ops, i) != key_at(
                ops,
                j,
            ),
    ensures
        forall|p: int|
            0 <= p < selected(ops, new, n).len() ==> is_one_of(
                ops,
                new,
                n,
                #[trigger] selected(ops, new, n)[p],
            ),
        forall|i: int| 0 <= i < n && #[trigger] new[i] ==> selected(ops, new, n).contains(ops[i]),
        distinct_ids(selected(ops, new, n)),
    decreases n,
{
    if n > 0 {
        lemma_selected(ops, new, n - 1);
        let before = selected(ops, new, n - 1);
        let now = selected(ops, new, n);
        assert forall|p: int| 0 <= p < now.len() implies is_one_of(ops, new, n, #[trigger] now[p]) by {
            if p < before.len() {
                assert(now[p] == before[p]);
                assert(is_one_of(ops, new, n - 1, before[p]));
                let i = choose|i: int| 0 <= i < n - 1 && #[trigger] new[i] && ops[i] == before[p];
                assert(new[i] && ops[i] == now[p]);
            } else {
                assert(new[n - 1] && ops[n - 1] == now[p]);
            }
        }
        assert forall|i: int| 0 <= i < n && #[trigger] new[i] implies now.contains(ops[i]) by {
            if i < n - 1 {
                assert(before.contains(ops[i]));
                let p = choose|p: int| 0 <= p < before.len() && before[p] == ops[i];
                assert(now[p] == ops[i]);
            } else {
                assert(now[before.len() as int] == ops[i]);
            }
        }
        assert forall|p: int, q: int| 0 <= p < q < now.len() implies id_key(
            (#[trigger] now[p]).operation_id,
        ) != id_key((#[trigger] now[q]).operation_id) by {
            assert(now[p] == before[p]);
            if q < before.len() {
                assert(now[q] == before[q]);
            } else {
                assert(is_one_of(ops, new, n - 1, before[p]));
                let i = choose|i: int| 0 <= i < n - 1 && #[trigger] new[i] && ops[i] == before[p];
                assert(new[n - 1]);
                assert(key_at(ops, i) != key_at(ops, n - 1));
            }
        }
    }
}

/// Which keys the new operations of a batch have.
proof fn lemma_new_ops(ops: Seq<OperationView>, new: Seq<bool>, key: [u8; 32])
    requires
        new.len() == ops.len(),
        forall|i: int, j: int|
            0 <= i < j < ops.len() && #[trigger] new[i] && #[trigger] new[j] ==> key_at(ops, i) != key_at(
                ops,
                j,
            ),
    ensures
        has_key(new_ops(ops, new), new_ops(ops, new).len() as int, key) <==> is_new_key(ops, new, key),
{
    let fresh = new_ops(ops, new);
    lemma_selected(ops, new, ops.len() as int);
    assert(fresh == selected(ops, new, ops.len() as int));
    if has_key(fresh, fresh.len() as int, key) {
        let p = choose|p: int| 0 <= p < fresh.len() && id_key((#[trigger] fresh[p]).operation_id) == key;
        assert(is_one_of(ops, new, ops.len() as int, fresh[p]));
        let i = choose|i: int| 0 <= i < ops.len() && #[trigger] new[i] && ops[i] == fresh[p];
        assert(new[i] && key_at(ops, i) == key);
    }
    if is_new_key(ops, new, key) {
        let i = choose|i: int| 0 <= i < ops.len() && #[trigger] new[i] && key_at(ops, i) == key;
        assert(fresh.contains(ops[i]));
        let p = choose|p: int| 0 <= p < fresh.len() && fresh[p] == ops[i];
        assert(id_key(fresh[p].operation_id) == key);
    }
}

proof fn lemma_has_key_either(a: Seq<OperationView>, b: Seq<OperationView>, key: [u8; 32])
    ensures
        has_key(a + b, (a + b).len() as int, key) <==> has_key(a, a.len() as int, key) || has_key(
            b,
            b.len() as int,
            key,
        ),
{
    let all = a + b;
    if has_key(a, a.len() as int, key) {
        let j = choose|j: int| 0 <= j < a.len() && id_key((#[trigger] a[j]).operation_id) == key;
        assert(id_key(all[j].operation_id) == key);
    }
    if has_key(b, b.len() as int, key) {
        let j = choose|j: int| 0 <= j < b.len() && id_key((#[trigger] b[j]).operation_id) == key;
        assert(id_key(all[a.len() + j].operation_id) == key);
    }
    if has_key(all, all.len() as int, key) {
        let j = choose|j: int| 0 <= j < all.len() && id_key((#[trigger] all[j]).operation_id) == key;
        if j < a.len() {
            assert(id_key(a[j].operation_id) == key);
        } else {
            assert(id_key(b[j - a.len()].operation_id) == key);
        }
    }
}

/// The batches on their way stay so when one of them ends.
proof fn lemma_end_flights(state: Traffic, flight: int, committed: bool)
    requires
        flights_hold(state),
        0 <= flight < state.flights.len(),
    ensures
        flights_hold(happened(state, Event::End { flight, committed })),
{
    let next = happened(state, Event::End { flight, committed });
    let Flight { ops, new, reservation } = state.flights[flight];
    assert(flies(state.memory, state.disk, state.flights[flight]));
    law_end_touches_its_own_keys(state.memory, state.disk, ops, new, reservation, committed);
    let left = state.flights.remove(flight);
    assert(next.flights == left);
    assert forall|f: int| 0 <= f < left.len() implies flies(
        next.memory,
        state.disk,
        #[trigger] left[f],
    ) by {
        let g = if f < flight {
            f
        } else {
            f + 1
        };
        assert(left[f] == state.flights[g]);
        let other = state.flights[g];
        assert(flies(state.memory, state.disk, other));
        assert(other.reservation != reservation);
        law_reservation_outlives_other_batches(
            state.memory,
            state.disk,
            other.ops,
            other.new,
            other.reservation,
            ops,
            new,
            reservation,
            committed,
        );
    }
    assert forall|f: int, g: int| 0 <= f < g < left.len() implies (#[trigger] left[f]).reservation != (
    #[trigger] left[g]).reservation by {
        let a = if f < flight {
            f
        } else {
            f + 1
        };
        let b = if g < flight {
            g
        } else {
            g + 1
        };
        assert(left[f] == state.flights[a]);
        assert(left[g] == state.flights[b]);
    }
    assert forall|k: [u8; 32]| #[trigger]
        next.memory.contains_key(k) && next.memory[k] is Pending implies !state.disk.contains_key(k) by {
        if is_new_key(ops, new, k) {
            let i = choose|i: int| 0 <= i < ops.len() && #[trigger] new[i] && key_at(ops, i) == k;
            assert(next.memory.get(key_at(ops, i)) == next.memory.get(k));
        } else {
            assert(next.memory.get(k) == state.memory.get(k));
            assert(state.memory.contains_key(k));
        }
    }
}

/// What is known after the end of a batch.
proof fn lemma_end_known(state: Traffic, flight: int, committed: bool, key: [u8; 32])
    requires
        flights_hold(state),
        0 <= flight < state.flights.len(),
    ensures
        ({
            let next = happened(state, Event::End { flight, committed });
            let Flight { ops, new, reservation } = state.flights[flight];
            if committed && is_new_key(ops, new, key) {
                known(state.memory, state.disk, key) is None && known(next.memory, next.disk, key) is Some
            } else {
                known(next.memory, next.disk, key) == known(state.memory, state.disk, key)
            }
        }),
{
    let next = happened(state, Event::End { flight, committed });
    let Flight { ops, new, reservation } = state.flights[flight];
    assert(flies(state.memory, state.disk, state.flights[flight]));
    law_end_touches_its_own_keys(state.memory, state.disk, ops, new, reservation, committed);
    if is_new_key(ops, new, key) {
        let i = choose|i: int| 0 <= i < ops.len() && #[trigger] new[i] && key_at(ops, i) == key;
        assert(held_at(state.memory, ops, i, reservation));
        assert(state.memory.contains_key(key));
    } else {
        assert(next.memory.get(key) == state.memory.get(key));
    }
}

proof fn lemma_end_books(
    memory: Map<[u8; 32], DedupEntry>,
    disk: Map<[u8; 32], [u8; 32]>,
    state: Traffic,
    flight: int,
)
    requires
        flights_hold(state),
        books_balance(memory, disk, state),
        0 <= flight < state.flights.len(),
    ensures
        books_balance(memory, disk, happened(state, Event::End { flight, committed: true })),
{
    let next = happened(state, Event::End { flight, committed: true });
    let Flight { ops, new, reservation } = state.flights[flight];
    let fresh = new_ops(ops, new);
    let m = state.applied.len() as int;
    assert(flies(state.memory, state.disk, state.flights[flight]));
    law_committed_batch_is_known(state.memory, state.disk, ops, new, reservation);
    law_end_touches_its_own_keys(state.memory, state.disk, ops, new, reservation, true);
    lemma_selected(ops, new, ops.len() as int);
    assert(next.applied == state.applied + fresh);
    assert(next.taken == state.taken + ops);
    assert(next.disk == state.disk);
    assert forall|k: [u8; 32]| known(memory, disk, k) is Some implies #[trigger] known(
        next.memory,
        next.disk,
        k,
    ) == known(memory, disk, k) by {
        assert(known(state.memory, state.disk, k) == known(memory, disk, k));
        lemma_end_known(state, flight, true, k);
    }
    assert forall|k: [u8; 32]| #[trigger] known(next.memory, next.disk, k) is Some <==> known(
        memory,
        disk,
        k,
    ) is Some || has_key(next.applied, next.applied.len() as int, k) by {
        assert(known(state.memory, state.disk, k) is Some <==> known(memory, disk, k) is Some || has_key(
            state.applied,
            m,
            k,
        ));
        lemma_end_known(state, flight, true, k);
        lemma_new_ops(ops, new, k);
        lemma_has_key_either(state.applied, fresh, k);
    }
    assert forall|a: int| 0 <= a < next.applied.len() implies known(
        memory,
        disk,
        #[trigger] key_at(next.applied, a),
    ) is None && known_at(next.memory, next.disk, next.applied, a) by {
        let key = key_at(next.applied, a);
        if a < m {
            assert(next.applied[a] == state.applied[a]);
            assert(known(memory, disk, key_at(state.applied, a)) is None);
            assert(known_at(state.memory, state.disk, state.applied, a));
            lemma_end_known(state, flight, true, key);
        } else {
            assert(next.applied[a] == fresh[a - m]);
            assert(is_one_of(ops, new, ops.len() as int, fresh[a - m]));
            let i = choose|i: int| 0 <= i < ops.len() && #[trigger] new[i] && ops[i] == fresh[a - m];
            assert(is_new_key(ops, new, key));
            lemma_end_known(state, flight, true, key);
            assert(next.memory.get(key_at(ops, i)) == Some(
                DedupEntry::Committed(op_fingerprint(ops[i])),
            ));
            if known(memory, disk, key) is Some {
                assert(known(state.memory, state.disk, key) == known(memory, disk, key));
            }
        }
    }
    assert forall|p: int, q: int| 0 <= p < q < next.applied.len() implies id_key(
        (#[trigger] next.applied[p]).operation_id,
    ) != id_key((#[trigger] next.applied[q]).operation_id) by {
        if q < m {
            assert(next.applied[p] == state.applied[p]);
            assert(next.applied[q] == state.applied[q]);
        } else if p >= m {
            assert(next.applied[p] == fresh[p - m]);
            assert(next.applied[q] == fresh[q - m]);
        } else {
            assert(next.applied[p] == state.applied[p]);
            assert(next.applied[q] == fresh[q - m]);
            assert(known(memory, disk, key_at(state.applied, p)) is None);
            assert(known_at(state.memory, state.disk, state.applied, p));
            assert(is_one_of(ops, new, ops.len() as int, fresh[q - m]));
            let i = choose|i: int| 0 <= i < ops.len() && #[trigger] new[i] && ops[i] == fresh[q - m];
            let key = key_at(ops, i);
            assert(is_new_key(ops, new, key));
            lemma_end_known(state, flight, true, key);
        }
    }
    assert forall|t: int| 0 <= t < next.taken.len() implies #[trigger] known_at(
        next.memory,
        next.disk,
        next.taken,
        t,
    ) by {
        let n = state.taken.len() as int;
        if t < n {
            assert(next.taken[t] == state.taken[t]);
            assert(known_at(state.memory, state.disk, state.taken, t));
            lemma_end_known(state, flight, true, key_at(state.taken, t));
        } else {
            assert(next.taken[t] == ops[t - n]);
            assert(known_at(next.memory, state.disk, ops, t - n));
        }
    }
}

// ---------------------------------------------------------------- moving to the disk
proof fn lemma_write(
    memory: Map<[u8; 32], DedupEntry>,
    disk: Map<[u8; 32], [u8; 32]>,
    state: Traffic,
    entries: Seq<([u8; 32], [u8; 32])>,
)
    requires
        flights_hold(state),
        books_balance(memory, disk, state),
        all_committed(state.memory, entries),
    ensures
        flights_hold(happened(state, Event::Write { entries })),
        books_balance(memory, disk, happened(state, Event::Write { entries })),
{
    let next = happened(state, Event::Write { entries });
    assert forall|k: [u8; 32]| #[trigger] known(next.memory, next.disk, k) == known(
        state.memory,
        state.disk,
        k,
    ) by {
        lemma_written(state.memory, state.disk, entries, k);
    }
    lemma_books_kept(memory, disk, state, next);
    assert forall|f: int| 0 <= f < next.flights.len() implies flies(
        next.memory,
        next.disk,
        #[trigger] next.flights[f],
    ) by {
        assert(flies(state.memory, state.disk, state.flights[f]));
        lemma_flies_on(state.memory, state.disk, next.memory, next.disk, state.flights[f]);
    }
    assert forall|k: [u8; 32]| #[trigger]
        next.memory.contains_key(k) && next.memory[k] is Pending implies !next.disk.contains_key(k) by {
        lemma_written(state.memory, state.disk, entries, k);
    }
}

/// Writing committed entries changes nothing under any other key.
proof fn lemma_written(
    memory: Map<[u8; 32], DedupEntry>,
    disk: Map<[u8; 32], [u8; 32]>,
    entries: Seq<([u8; 32], [u8; 32])>,
    key: [u8; 32],
)
    requires
        all_committed(memory, entries),
    ensures
        disk_after(disk, entries).get(key) == disk.get(key) || (memory.contains_key(key)
            && memory[key] is Committed),
{
    lemma_disk_after(disk, entries, key);
    if disk_after(disk, entries).get(key) != disk.get(key) {
        let i = choose|i: int|
            0 <= i < entries.len() && (#[trigger] entries[i]).0 == key && disk_after(
                disk,
                entries,
            ).get(key) == Some(entries[i].1);
        assert(entries.contains(entries[i]));
    }
}

proof fn lemma_retire(
    memory: Map<[u8; 32], DedupEntry>,
    disk: Map<[u8; 32], [u8; 32]>,
    state: Traffic,
    entries: Seq<([u8; 32], [u8; 32])>,
)
    requires
        flights_hold(state),
        books_balance(memory, disk, state),
        all_on_disk(state.disk, entries),
    ensures
        flights_hold(happened(state, Event::Retire { entries })),
        books_balance(memory, disk, happened(state, Event::Retire { entries })),
{
    let next = happened(state, Event::Retire { entries });
    assert forall|k: [u8; 32]| #[trigger] known(next.memory, next.disk, k) == known(
        state.memory,
        state.disk,
        k,
    ) by {
        if state.memory.contains_key(k) && !next.memory.contains_key(k) {
            let print = state.memory[k]->Committed_0;
            assert(entries.contains((k, print)));
        }
    }
    lemma_books_kept(memory, disk, state, next);
    assert forall|f: int| 0 <= f < next.flights.len() implies flies(
        next.memory,
        next.disk,
        #[trigger] next.flights[f],
    ) by {
        assert(flies(state.memory, state.disk, state.flights[f]));
        lemma_flies_on(state.memory, state.disk, next.memory, next.disk, state.flights[f]);
    }
    assert forall|k: [u8; 32]| #[trigger]
        next.memory.contains_key(k) && next.memory[k] is Pending implies !next.disk.contains_key(k) by {
        assert(state.memory.contains_key(k));
    }
}

// ---------------------------------------------------------------- the law
/// However batches overlap, wait, end and move to the disk: those on their way stay
/// reserved, the operations that were published have different keys and none was
/// known before, exactly they have become known, every operation of a committed batch
/// is known with what it says, and the published balances are those from before and
/// the published operations, each once.
pub proof fn law_overlapping_batches_count_once(
    memory: Map<[u8; 32], DedupEntry>,
    disk: Map<[u8; 32], [u8; 32]>,
    published: Map<(Seq<char>, Seq<char>), i64>,
    events: Seq<Event>,
)
    requires
        nothing_pending(memory),
    ensures
        ({
            let end = after_events(memory, disk, published, events);
            &&& flights_hold(end)
            &&& books_balance(memory, disk, end)
            &&& end.published == add_ops(published, end.applied)
        }),
    decreases events.len(),
{
    let end = after_events(memory, disk, published, events);
    if events.len() > 0 {
        law_overlapping_batches_count_once(memory, disk, published, events.drop_last());
        let before = after_events(memory, disk, published, events.drop_last());
        match events.last() {
            Event::Ask { ops, reservation } => {
                lemma_ask(memory, disk, before, ops, reservation);
            },
            Event::End { flight, committed } => {
                if 0 <= flight < before.flights.len() {
                    lemma_end_flights(before, flight, committed);
                    if committed {
                        lemma_end_books(memory, disk, before, flight);
                        let ended = before.flights[flight];
                        lemma_add_ops_concat(
                            published,
                            before.applied,
                            new_ops(ended.ops, ended.new),
                        );
                    } else {
                        assert forall|k: [u8; 32]| #[trigger] known(end.memory, end.disk, k) == known(
                            before.memory,
                            before.disk,
                            k,
                        ) by {
                            lemma_end_known(before, flight, false, k);
                        }
                        lemma_books_kept(memory, disk, before, end);
                    }
                }
            },
            Event::Write { entries } => {
                if all_committed(before.memory, entries) {
                    lemma_write(memory, disk, before, entries);
                }
            },
            Event::Retire { entries } => {
                if all_on_disk(before.disk, entries) {
                    lemma_retire(memory, disk, before, entries);
                }
            },
        }
    } else {
        assert forall|k: [u8; 32]| !has_key(end.applied, 0, k) by {}
    }
}

/// A batch that was committed is answered with nothing new whenever it comes again,
/// whatever batches are on their way and whatever has moved to the disk.
pub proof fn law_committed_batch_stays_a_duplicate(
    memory: Map<[u8; 32], DedupEntry>,
    disk: Map<[u8; 32], [u8; 32]>,
    published: Map<(Seq<char>, Seq<char>), i64>,
    events: Seq<Event>,
    ops: Seq<OperationView>,
    reservation: u64,
)
    requires
        nothing_pending(memory),
        forall|i: int|
            0 <= i < ops.len() ==> after_events(memory, disk, published, events).taken.contains(
                #[trigger] ops[i],
            ),
    ensures
        ({
            let end = after_events(memory, disk, published, events);
            preflight(end.memory, ops, looked_up(ops, end.disk), reservation) == (
                end.memory,
                PreflightView::Ready(Seq::new(ops.len(), |i: int| false)),
            )
        }),
{
    let end = after_events(memory, disk, published, events);
    law_overlapping_batches_count_once(memory, disk, published, events);
    assert forall|i: int| 0 <= i < ops.len() implies #[trigger] known_at(end.memory, end.disk, ops, i) by {
        assert(end.taken.contains(ops[i]));
        let t = choose|t: int| 0 <= t < end.taken.len() && end.taken[t] == ops[i];
        assert(known_at(end.memory, end.disk, end.taken, t));
    }
    law_known_operations_are_duplicates(end.memory, end.disk, ops, reservation);
}

} // verus!
