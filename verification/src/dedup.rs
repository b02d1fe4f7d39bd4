//! The deduplication index in memory: which operation identifiers are committed,
//! which are reserved by a batch on its way, and how a batch passes through.

use std::collections::hash_map::DefaultHasher;
use std::hash::Hasher;

use vstd::prelude::*;
use vstd::std_specs::hash::DefaultHasherAdditionalSpecFns;

use crate::balances::{hash_str, str_hash_writes};
use crate::codec::{get_uint, le_value};
use crate::digest::{fingerprint, id_key, op_fingerprint, operation_id_hash, same_digest};
use crate::model::{operation_views, Operation, OperationView};
use crate::sharded::{ShardKey, Sharded};
use crate::table::{Table, TableKey};

verus! {

/// The number of shards of the deduplication index.
pub const DEDUP_SHARDS: usize = 64;

// ---------------------------------------------------------------- keys and entries
/// The digest of an operation identifier.
#[derive(Clone, Copy)]
pub struct DedupKey {
    pub bytes: [u8; 32],
}

impl View for DedupKey {
    type V = [u8; 32];

    open spec fn view(&self) -> [u8; 32] {
        self.bytes
    }
}

/// The shard of the index that a key belongs to, out of `count`: the little-endian
/// number in its first two bytes, modulo `count`.
pub open spec fn key_shard(key: [u8; 32], count: usize) -> int {
    (key@[0] + 256 * key@[1]) % (count as int)
}

/// The shard of the index that a key belongs to.
pub fn dedup_shard(key: &[u8; 32]) -> (shard: usize)
    ensures
        shard == key_shard(*key, DEDUP_SHARDS),
        shard < DEDUP_SHARDS,
{
    (key[0] as usize + 256 * (key[1] as usize)) % DEDUP_SHARDS
}

impl TableKey for DedupKey {
    open spec fn code_of(key: [u8; 32]) -> u64 {
        le_value(key@.take(8)) as u64
    }

    fn code(&self) -> (code: u64) {
        let bytes: &[u8] = vstd::slice::slice_subrange(self.bytes.as_slice(), 0, 8);
        assert(bytes@ =~= self.bytes@.take(8));
        get_uint(bytes)
    }

    fn same(&self, other: &Self) -> (result: bool) {
        same_digest(&self.bytes, &other.bytes)
    }
}

impl ShardKey for DedupKey {
    open spec fn shard_of(key: [u8; 32], count: usize) -> int {
        key_shard(key, count)
    }

    proof fn lemma_shard_of(key: [u8; 32], count: usize) {
    }

    fn shard(&self, count: usize) -> (shard: usize) {
        (self.bytes[0] as usize + 256 * (self.bytes[1] as usize)) % count
    }
}

/// What the index knows of an operation identifier.
#[derive(Clone, Copy, Debug)]
pub enum DedupEntry {
    /// The operation is committed, with this fingerprint.
    Committed([u8; 32]),
    /// A batch that holds the reservation is on its way with the operation.
    Pending { fingerprint: [u8; 32], reservation: u64 },
}

/// The deduplication index in memory.
pub type Dedup = Sharded<DedupKey, DedupEntry>;

// ---------------------------------------------------------------- a batch by itself
/// The deduplication key of each operation.
pub open spec fn batch_keys(ops: Seq<OperationView>) -> Seq<[u8; 32]> {
    ops.map_values(|op: OperationView| id_key(op.operation_id))
}

/// Whether no earlier operation of the batch has the identifier of operation `i`.
pub open spec fn is_first(ops: Seq<OperationView>, i: int) -> bool {
    forall|j: int| 0 <= j < i ==> (#[trigger] ops[j]).operation_id != ops[i].operation_id
}

/// Which operations are the first of the batch with their identifier.
pub open spec fn firsts(ops: Seq<OperationView>) -> Seq<bool> {
    Seq::new(ops.len(), |i: int| is_first(ops, i))
}

/// Whether an earlier operation of the batch has the identifier of operation `i`
/// and says something else.
pub open spec fn differs(ops: Seq<OperationView>, i: int) -> bool {
    exists|j: int|
        0 <= j < i && (#[trigger] ops[j]).operation_id == ops[i].operation_id && op_fingerprint(
            ops[j],
        ) != op_fingerprint(ops[i])
}

/// The first of the first `n` operations that contradicts an earlier one.
pub open spec fn first_difference(ops: Seq<OperationView>, n: int) -> Option<int>
    decreases n,
{
    if n <= 0 {
        None
    } else {
        match first_difference(ops, n - 1) {
            Some(i) => Some(i),
            None => if differs(ops, n - 1) {
                Some(n - 1)
            } else {
                None
            },
        }
    }
}

/// There is no first contradiction exactly where there is none.
pub proof fn lemma_first_difference(ops: Seq<OperationView>, n: int)
    ensures
        match first_difference(ops, n) {
            Some(i) => 0 <= i < n && differs(ops, i) && forall|j: int| 0 <= j < i ==> !differs(ops, j),
            None => forall|j: int| 0 <= j < n ==> !differs(ops, j),
        },
    decreases n,
{
    if n > 0 {
        lemma_first_difference(ops, n - 1);
    }
}

/// A contradiction that comes first is found.
proof fn lemma_difference_found(ops: Seq<OperationView>, at: int, n: int)
    requires
        0 <= at < n,
        differs(ops, at),
        forall|j: int| 0 <= j < at ==> !differs(ops, j),
    ensures
        first_difference(ops, n) == Some(at),
    decreases n,
{
    if n == at + 1 {
        lemma_first_difference(ops, at);
    } else {
        lemma_difference_found(ops, at, n - 1);
    }
}

/// An operation identifier, as a key of a batch's own index.
struct IdKey<'a> {
    id: &'a String,
}

impl<'a> View for IdKey<'a> {
    type V = Seq<char>;

    closed spec fn view(&self) -> Seq<char> {
        self.id@
    }
}

impl<'a> TableKey for IdKey<'a> {
    open spec fn code_of(key: Seq<char>) -> u64 {
        DefaultHasher::spec_finish(str_hash_writes(key))
    }

    fn code(&self) -> (code: u64) {
        let mut hasher: DefaultHasher = DefaultHasher::new();
        hash_str(self.id.as_str(), &mut hasher);
        assert(hasher@ =~= str_hash_writes(self.id@));
        hasher.finish()
    }

    fn same(&self, other: &Self) -> (result: bool) {
        *self.id == *other.id
    }
}

/// The keys of a batch.
fn hash_ids(operations: &[Operation]) -> (keys: Vec<[u8; 32]>)
    ensures
        keys@ == batch_keys(operation_views(operations@)),
{
    let mut keys: Vec<[u8; 32]> = Vec::new();
    let ghost all = batch_keys(operation_views(operations@));
    let mut at: usize = 0;
    while at < operations.len()
        invariant
            at <= operations@.len(),
            all == batch_keys(operation_views(operations@)),
            keys@ == all.take(at as int),
        decreases operations@.len() - at,
    {
        keys.push(operation_id_hash(operations[at].operation_id.as_str()));
        at = at + 1;
        assert(keys@ =~= all.take(at as int));
    }
    assert(keys@ =~= all);
    keys
}

/// The fingerprints of a batch.
fn fingerprints(operations: &[Operation]) -> (prints: Vec<[u8; 32]>)
    ensures
        prints@.len() == operations@.len(),
        forall|i: int|
            0 <= i < operations@.len() ==> #[trigger] prints@[i] == op_fingerprint(operations@[i]@),
{
    let mut prints: Vec<[u8; 32]> = Vec::new();
    let mut at: usize = 0;
    while at < operations.len()
        invariant
            at <= operations@.len(),
            prints@.len() == at,
            forall|i: int|
                0 <= i < at ==> #[trigger] prints@[i] == op_fingerprint(operations@[i]@),
        decreases operations@.len() - at,
    {
        prints.push(fingerprint(&operations[at]));
        at = at + 1;
    }
    prints
}

/// Which operations are the first of the batch with their identifier, or the
/// first operation that contradicts an earlier one.
fn find_firsts(operations: &[Operation], prints: &Vec<[u8; 32]>) -> (result: Result<Vec<bool>, usize>)
    requires
        prints@.len() == operations@.len(),
        forall|i: int|
            0 <= i < operations@.len() ==> #[trigger] prints@[i] == op_fingerprint(operations@[i]@),
    ensures
        match result {
            Ok(flags) => flags@ == firsts(operation_views(operations@)) && first_difference(
                operation_views(operations@),
                operations@.len() as int,
            ) is None,
            Err(i) => i < operations@.len() && first_difference(
                operation_views(operations@),
                operations@.len() as int,
            ) == Some(i as int),
        },
{
    let ghost ops = operation_views(operations@);
    let mut first: Table<IdKey, usize> = Table::new();
    let mut flags: Vec<bool> = Vec::new();
    let mut at: usize = 0;
    while at < operations.len()
        invariant
            at <= operations@.len(),
            ops == operation_views(operations@),
            prints@.len() == operations@.len(),
            forall|i: int|
                0 <= i < operations@.len() ==> #[trigger] prints@[i] == op_fingerprint(
                    operations@[i]@,
                ),
            flags@.len() == at,
            forall|i: int| 0 <= i < at ==> #[trigger] flags@[i] == is_first(ops, i),
            forall|i: int| 0 <= i < at ==> !differs(ops, i),
            first.wf(),
            forall|i: int|
                0 <= i < at ==> first@.contains_key((#[trigger] ops[i]).operation_id),
            forall|id: Seq<char>| #[trigger]
                first@.contains_key(id) ==> first@[id] < at && is_first(ops, first@[id] as int)
                    && ops[first@[id] as int].operation_id == id,
        decreases operations@.len() - at,
    {
        let key: IdKey = IdKey { id: &operations[at].operation_id };
        assert(ops[at as int].operation_id == key@);
        match first.get(&key) {
            Some(earlier) => {
                if !same_digest(&prints[earlier], &prints[at]) {
                    proof {
                        assert(ops[earlier as int].operation_id == ops[at as int].operation_id);
                        assert(differs(ops, at as int));
                        lemma_difference_found(ops, at as int, operations@.len() as int);
                    }
                    return Err(at);
                }
                proof {
                    if differs(ops, at as int) {
                        let j = choose|j: int|
                            0 <= j < at && (#[trigger] ops[j]).operation_id == ops[at as int].operation_id
                                && op_fingerprint(ops[j]) != op_fingerprint(ops[at as int]);
                        let e = earlier as int;
                        if j > e {
                            assert(ops[e].operation_id == ops[j].operation_id);
                            assert(differs(ops, j));
                        }
                        assert(j == e);
                    }
                    assert(ops[earlier as int].operation_id == ops[at as int].operation_id);
                    assert(!is_first(ops, at as int));
                }
                flags.push(false);
            },
            None => {
                proof {
                    assert(is_first(ops, at as int));
                    assert(!differs(ops, at as int));
                }
                first.insert(key, at);
                flags.push(true);
            },
        }
        at = at + 1;
    }
    proof {
        lemma_first_difference(ops, ops.len() as int);
        assert(flags@ =~= firsts(ops));
    }
    Ok(flags)
}

// ---------------------------------------------------------------- the order of a batch
/// Which of the first `n` operations are wanted and belong to a shard, in order.
pub open spec fn shard_visits(
    keys: Seq<[u8; 32]>,
    wanted: Seq<bool>,
    shard: int,
    n: int,
) -> Seq<int>
    decreases n,
{
    if n <= 0 {
        Seq::empty()
    } else {
        let before = shard_visits(keys, wanted, shard, n - 1);
        if wanted[n - 1] && key_shard(keys[n - 1], DEDUP_SHARDS) == shard {
            before.push(n - 1)
        } else {
            before
        }
    }
}

/// The wanted operations of the first `shards` shards, shard after shard.
pub open spec fn visits(keys: Seq<[u8; 32]>, wanted: Seq<bool>, shards: int) -> Seq<int>
    decreases shards,
{
    if shards <= 0 {
        Seq::empty()
    } else {
        visits(keys, wanted, shards - 1) + shard_visits(keys, wanted, shards - 1, keys.len() as int)
    }
}

/// The order in which the index visits the wanted operations of a batch: shard
/// after shard, and within a shard as they stand in the batch.
pub open spec fn visit_order(keys: Seq<[u8; 32]>, wanted: Seq<bool>) -> Seq<int> {
    visits(keys, wanted, DEDUP_SHARDS as int)
}

proof fn lemma_shard_visits(keys: Seq<[u8; 32]>, wanted: Seq<bool>, shard: int, n: int)
    ensures
        forall|i: int| #[trigger]
            shard_visits(keys, wanted, shard, n).contains(i) <==> 0 <= i < n && wanted[i]
                && key_shard(keys[i], DEDUP_SHARDS) == shard,
        shard_visits(keys, wanted, shard, n).no_duplicates(),
    decreases n,
{
    if n > 0 {
        lemma_shard_visits(keys, wanted, shard, n - 1);
        let before = shard_visits(keys, wanted, shard, n - 1);
        let after = shard_visits(keys, wanted, shard, n);
        if wanted[n - 1] && key_shard(keys[n - 1], DEDUP_SHARDS) == shard {
            assert forall|i: int| #[trigger] after.contains(i) <==> before.contains(i) || i == n - 1 by {
                if before.contains(i) {
                    let p = choose|p: int| 0 <= p < before.len() && before[p] == i;
                    assert(after[p] == i);
                }
                assert(after[before.len() as int] == n - 1);
            }
            assert(!before.contains(n - 1));
        }
    }
}

proof fn lemma_visits(keys: Seq<[u8; 32]>, wanted: Seq<bool>, shards: int)
    ensures
        forall|i: int| #[trigger]
            visits(keys, wanted, shards).contains(i) <==> 0 <= i < keys.len() && wanted[i]
                && key_shard(keys[i], DEDUP_SHARDS) < shards,
        visits(keys, wanted, shards).no_duplicates(),
    decreases shards,
{
    if shards > 0 {
        lemma_visits(keys, wanted, shards - 1);
        lemma_shard_visits(keys, wanted, shards - 1, keys.len() as int);
        let before = visits(keys, wanted, shards - 1);
        let more = shard_visits(keys, wanted, shards - 1, keys.len() as int);
        let after = before + more;
        assert forall|i: int| #[trigger] after.contains(i) <==> before.contains(i) || more.contains(
            i,
        ) by {
            if before.contains(i) {
                let p = choose|p: int| 0 <= p < before.len() && before[p] == i;
                assert(after[p] == i);
            }
            if more.contains(i) {
                let p = choose|p: int| 0 <= p < more.len() && more[p] == i;
                assert(after[before.len() + p] == i);
            }
        }
        assert forall|p: int, q: int| 0 <= p < q < after.len() implies after[p] != after[q] by {
            if p < before.len() && q >= before.len() {
                assert(before.contains(before[p]));
                assert(more.contains(more[q - before.len()]));
            }
        }
    } else {
        assert forall|i: int| !(0 <= i < keys.len() && wanted[i] && key_shard(keys[i], DEDUP_SHARDS)
            < shards) by {}
    }
}

/// Every wanted operation is visited, and only once.
pub proof fn lemma_visit_order(keys: Seq<[u8; 32]>, wanted: Seq<bool>)
    ensures
        forall|i: int| #[trigger]
            visit_order(keys, wanted).contains(i) <==> 0 <= i < keys.len() && wanted[i],
        visit_order(keys, wanted).no_duplicates(),
{
    lemma_visits(keys, wanted, DEDUP_SHARDS as int);
}

/// The positions in `order`.
pub open spec fn positions(order: Seq<usize>) -> Seq<int> {
    order.map_values(|i: usize| i as int)
}

fn order_visits(keys: &[[u8; 32]], wanted: &[bool]) -> (order: Vec<usize>)
    requires
        wanted@.len() == keys@.len(),
    ensures
        positions(order@) == visit_order(keys@, wanted@),
        forall|p: int| 0 <= p < order@.len() ==> (#[trigger] order@[p]) < keys@.len(),
{
    let mut order: Vec<usize> = Vec::new();
    let mut shard: usize = 0;
    while shard < DEDUP_SHARDS
        invariant
            shard <= DEDUP_SHARDS,
            wanted@.len() == keys@.len(),
            positions(order@) == visits(keys@, wanted@, shard as int),
            forall|p: int| 0 <= p < order@.len() ==> (#[trigger] order@[p]) < keys@.len(),
        decreases DEDUP_SHARDS - shard,
    {
        let ghost before = positions(order@);
        let mut at: usize = 0;
        assert(before =~= before + shard_visits(keys@, wanted@, shard as int, 0));
        while at < keys.len()
            invariant
                at <= keys@.len(),
                shard < DEDUP_SHARDS,
                wanted@.len() == keys@.len(),
                positions(order@) == before + shard_visits(keys@, wanted@, shard as int, at as int),
                forall|p: int| 0 <= p < order@.len() ==> (#[trigger] order@[p]) < keys@.len(),
            decreases keys@.len() - at,
        {
            let ghost so_far = positions(order@);
            if wanted[at] && dedup_shard(&keys[at]) == shard {
                order.push(at);
                assert(positions(order@) =~= so_far.push(at as int));
            }
            at = at + 1;
            assert(positions(order@) =~= before + shard_visits(keys@, wanted@, shard as int, at as int));
        }
        shard = shard + 1;
    }
    order
}

// ---------------------------------------------------------------- reserving a batch
/// What the index says to one operation.
pub ghost enum Verdict {
    /// The operation is committed.
    Known,
    /// Nothing is known of the operation.
    Fresh,
    /// A batch with this reservation is on its way with the operation.
    Held(u64),
    /// Another operation has the identifier.
    Taken,
}

/// What the index says to an operation with this fingerprint, where it holds
/// `entry` and the disk holds `stored`.
pub open spec fn verdict(
    entry: Option<DedupEntry>,
    stored: Option<[u8; 32]>,
    print: [u8; 32],
) -> Verdict {
    match entry {
        Some(DedupEntry::Committed(known)) => if known == print {
            Verdict::Known
        } else {
            Verdict::Taken
        },
        Some(DedupEntry::Pending { fingerprint, reservation }) => if fingerprint == print {
            Verdict::Held(reservation)
        } else {
            Verdict::Taken
        },
        None => match stored {
            Some(known) => if known == print {
                Verdict::Known
            } else {
                Verdict::Taken
            },
            None => Verdict::Fresh,
        },
    }
}

/// Why a batch cannot be reserved.
pub ghost enum Stop {
    /// The batch has to wait until this reservation ends.
    Wait(u64),
    /// The identifier of this operation is taken.
    Conflict(int),
}

/// A batch that is being reserved.
pub ghost struct Reserving {
    pub memory: Map<[u8; 32], DedupEntry>,
    pub new: Seq<bool>,
    pub stop: Option<Stop>,
}

/// A batch after one more operation.
pub open spec fn reserve_one(
    state: Reserving,
    ops: Seq<OperationView>,
    stored: Seq<Option<[u8; 32]>>,
    i: int,
    reservation: u64,
) -> Reserving {
    let key = id_key(ops[i].operation_id);
    let print = op_fingerprint(ops[i]);
    match verdict(state.memory.get(key), stored[i], print) {
        Verdict::Known => state,
        Verdict::Fresh => Reserving {
            memory: state.memory.insert(
                key,
                DedupEntry::Pending { fingerprint: print, reservation },
            ),
            new: state.new.update(i, true),
            stop: None,
        },
        Verdict::Held(other) => Reserving { stop: Some(Stop::Wait(other)), ..state },
        Verdict::Taken => Reserving { stop: Some(Stop::Conflict(i)), ..state },
    }
}

/// A batch after the operations in `order`, up to the first that stops it.
pub open spec fn reserving(
    memory: Map<[u8; 32], DedupEntry>,
    ops: Seq<OperationView>,
    stored: Seq<Option<[u8; 32]>>,
    order: Seq<int>,
    reservation: u64,
) -> Reserving
    decreases order.len(),
{
    if order.len() == 0 {
        Reserving { memory, new: Seq::new(ops.len(), |i: int| false), stop: None }
    } else {
        let before = reserving(memory, ops, stored, order.drop_last(), reservation);
        if before.stop is Some {
            before
        } else {
            reserve_one(before, ops, stored, order.last(), reservation)
        }
    }
}

/// The answer to a batch that asks to be reserved.
pub ghost enum PreflightView {
    /// The batch may go on; the flags say which of its operations are new.
    Ready(Seq<bool>),
    /// The batch has to wait until this reservation ends.
    Wait(u64),
    /// The batch is refused on account of this operation identifier.
    Conflict(Seq<char>),
}

/// The index after a batch has asked to be reserved, and the answer. A batch that
/// is not reserved as a whole leaves nothing behind.
pub open spec fn preflight(
    memory: Map<[u8; 32], DedupEntry>,
    ops: Seq<OperationView>,
    stored: Seq<Option<[u8; 32]>>,
    reservation: u64,
) -> (Map<[u8; 32], DedupEntry>, PreflightView) {
    match first_difference(ops, ops.len() as int) {
        Some(i) => (memory, PreflightView::Conflict(ops[i].operation_id)),
        None => {
            let order = visit_order(batch_keys(ops), firsts(ops));
            let end = reserving(memory, ops, stored, order, reservation);
            match end.stop {
                None => (end.memory, PreflightView::Ready(end.new)),
                Some(Stop::Wait(other)) => (memory, PreflightView::Wait(other)),
                Some(Stop::Conflict(i)) => (memory, PreflightView::Conflict(ops[i].operation_id)),
            }
        },
    }
}

/// A batch is refused: its operation identifier stands for something else.
#[derive(Debug)]
pub struct ConflictError(pub String);

/// The answer to a batch that asks to be reserved.
#[derive(Debug)]
pub enum Preflight {
    /// The batch may go on; the flags say which of its operations are new.
    Ready(Vec<bool>),
    /// The batch has to wait until this reservation ends.
    Wait(u64),
    /// The batch is refused.
    Conflict(ConflictError),
}

impl View for Preflight {
    type V = PreflightView;

    open spec fn view(&self) -> PreflightView {
        match self {
            Preflight::Ready(new) => PreflightView::Ready(new@),
            Preflight::Wait(reservation) => PreflightView::Wait(*reservation),
            Preflight::Conflict(error) => PreflightView::Conflict(error.0@),
        }
    }
}

/// Whether an entry is held by a reservation.
pub open spec fn held_by(entry: DedupEntry, reservation: u64) -> bool {
    match entry {
        DedupEntry::Pending { fingerprint, reservation: holder } => holder == reservation,
        DedupEntry::Committed(known) => false,
    }
}

/// The index after a reservation of these keys has been given back.
pub open spec fn rolled_back(
    memory: Map<[u8; 32], DedupEntry>,
    keys: Seq<[u8; 32]>,
    reservation: u64,
) -> Map<[u8; 32], DedupEntry> {
    memory.restrict(
        Set::new(
            |key: [u8; 32]|
                memory.contains_key(key) && !(keys.contains(key) && held_by(memory[key], reservation)),
        ),
    )
}

/// Gives back a reservation: of these keys, those that it holds.
pub fn rollback_reservation(memory: &mut Dedup, keys: &[[u8; 32]], reservation: u64)
    requires
        old(memory).wf(),
    ensures
        final(memory).wf(),
        final(memory).shards() == old(memory).shards(),
        final(memory)@ == rolled_back(old(memory)@, keys@, reservation),
{
    let ghost before = memory@;
    let mut at: usize = 0;
    assert(memory@ =~= rolled_back(before, keys@.take(0), reservation));
    while at < keys.len()
        invariant
            at <= keys@.len(),
            memory.wf(),
            memory.shards() == old(memory).shards(),
            memory@ == rolled_back(before, keys@.take(at as int), reservation),
        decreases keys@.len() - at,
    {
        let key: DedupKey = DedupKey { bytes: keys[at] };
        match memory.get(&key) {
            Some(DedupEntry::Pending { fingerprint: _, reservation: holder }) => {
                if holder == reservation {
                    let _entry: Option<DedupEntry> = memory.remove(&key);
                }
            },
            _ => {},
        }
        proof {
            let now = keys@.take(at as int);
            let then = keys@.take(at + 1);
            assert forall|k: [u8; 32]| #[trigger] then.contains(k) <==> now.contains(k) || k == key@ by {
                if now.contains(k) {
                    let p = choose|p: int| 0 <= p < now.len() && now[p] == k;
                    assert(then[p] == k);
                }
                assert(then[at as int] == key@);
            }
            assert(memory@ =~= rolled_back(before, then, reservation));
        }
        at = at + 1;
    }
    assert(keys@.take(at as int) =~= keys@);
}

/// Looks at a batch by itself: it is refused, whatever the index holds, where one of
/// its operations contradicts an earlier one.
pub fn check_batch(operations: &[Operation]) -> (result: Result<(), ConflictError>)
    ensures
        match (result, first_difference(operation_views(operations@), operations@.len() as int)) {
            (Ok(()), None) => true,
            (Err(error), Some(i)) => error.0@ == operation_views(operations@)[i].operation_id,
            _ => false,
        },
{
    let prints: Vec<[u8; 32]> = fingerprints(operations);
    match find_firsts(operations, &prints) {
        Ok(_) => Ok(()),
        Err(at) => Err(ConflictError(operations[at].operation_id.clone())),
    }
}

/// Asks for a batch to be reserved: each of its operations that nothing is known
/// of is held for it, or else the batch leaves the index as it was. `stored` holds
/// what the disk has under the key of each operation.
pub fn preflight_batch(
    memory: &mut Dedup,
    operations: &[Operation],
    stored: &[Option<[u8; 32]>],
    reservation: u64,
) -> (result: Preflight)
    requires
        old(memory).wf(),
        stored@.len() == operations@.len(),
    ensures
        final(memory).wf(),
        final(memory).shards() == old(memory).shards(),
        (final(memory)@, result@) == preflight(
            old(memory)@,
            operation_views(operations@),
            stored@,
            reservation,
        ),
{
    let ghost ops = operation_views(operations@);
    let ghost before = memory@;
    let keys: Vec<[u8; 32]> = hash_ids(operations);
    let prints: Vec<[u8; 32]> = fingerprints(operations);
    let first: Vec<bool> = match find_firsts(operations, &prints) {
        Ok(first) => first,
        Err(at) => {
            return Preflight::Conflict(ConflictError(operations[at].operation_id.clone()));
        },
    };
    let order: Vec<usize> = order_visits(keys.as_slice(), first.as_slice());
    let ghost visits = visit_order(batch_keys(ops), firsts(ops));
    let mut new: Vec<bool> = Vec::new();
    while new.len() < operations.len()
        invariant
            new@.len() <= operations@.len(),
            new@ == Seq::new(new@.len(), |i: int| false),
        decreases operations@.len() - new@.len(),
    {
        new.push(false);
        assert(new@ =~= Seq::new(new@.len(), |i: int| false));
    }
    assert(new@ =~= Seq::new(ops.len(), |i: int| false));
    let mut reserved: Vec<[u8; 32]> = Vec::new();
    let mut at: usize = 0;
    assert(visits.take(0) =~= Seq::empty());
    while at < order.len()
        invariant
            at <= order@.len(),
            memory.wf(),
            memory.shards() == old(memory).shards(),
            before == old(memory)@,
            ops == operation_views(operations@),
            stored@.len() == operations@.len(),
            keys@ == batch_keys(ops),
            prints@.len() == operations@.len(),
            forall|i: int|
                0 <= i < operations@.len() ==> #[trigger] prints@[i] == op_fingerprint(
                    operations@[i]@,
                ),
            first_difference(ops, ops.len() as int) is None,
            visits == visit_order(batch_keys(ops), firsts(ops)),
            positions(order@) == visits,
            forall|p: int| 0 <= p < order@.len() ==> (#[trigger] order@[p]) < operations@.len(),
            new@.len() == operations@.len(),
            (Reserving { memory: memory@, new: new@, stop: None }) == reserving(
                before,
                ops,
                stored@,
                visits.take(at as int),
                reservation,
            ),
            rolled_back(memory@, reserved@, reservation) == before,
            forall|key: [u8; 32]| #[trigger]
                memory@.contains_key(key) ==> before.contains_key(key) || reserved@.contains(key),
        decreases order@.len() - at,
    {
        let index: usize = order[at];
        let key: DedupKey = DedupKey { bytes: keys[index] };
        proof {
            let now = visits.take(at as int);
            let then = visits.take(at + 1);
            assert(then.drop_last() =~= now);
            assert(then.last() == positions(order@)[at as int]);
            assert(then.last() == index);
            assert(ops[index as int] == operations@[index as int]@);
            assert(keys@[index as int] == id_key(ops[index as int].operation_id));
            assert(reserving(before, ops, stored@, then, reservation) == reserve_one(
                reserving(before, ops, stored@, now, reservation),
                ops,
                stored@,
                index as int,
                reservation,
            ));
        }
        let mut taken: bool = false;
        let mut held: Option<u64> = None;
        match memory.get(&key) {
            Some(DedupEntry::Committed(known)) => {
                if !same_digest(&known, &prints[index]) {
                    taken = true;
                }
            },
            Some(DedupEntry::Pending { fingerprint, reservation: holder }) => {
                if same_digest(&fingerprint, &prints[index]) {
                    held = Some(holder);
                } else {
                    taken = true;
                }
            },
            None => match stored[index] {
                Some(known) => {
                    if !same_digest(&known, &prints[index]) {
                        taken = true;
                    }
                },
                None => {
                    let ghost so_far = memory@;
                    let ghost reserved_before = reserved@;
                    memory.insert(
                        key,
                        DedupEntry::Pending { fingerprint: prints[index], reservation },
                    );
                    new.set(index, true);
                    reserved.push(key.bytes);
                    proof {
                        lemma_reserved_more(so_far, memory@, before, reserved_before, key@, reservation);
                    }
                },
            },
        }
        if taken || held.is_some() {
            proof {
                lemma_stopped(before, ops, stored@, visits, at + 1, reservation);
            }
            rollback_reservation(memory, reserved.as_slice(), reservation);
            return match held {
                Some(holder) => Preflight::Wait(holder),
                None => Preflight::Conflict(ConflictError(operations[index].operation_id.clone())),
            };
        }
        at = at + 1;
    }
    assert(visits.take(at as int) =~= visits);
    Preflight::Ready(new)
}

/// A reservation of one more free key can be given back.
proof fn lemma_reserved_more(
    so_far: Map<[u8; 32], DedupEntry>,
    now: Map<[u8; 32], DedupEntry>,
    before: Map<[u8; 32], DedupEntry>,
    reserved: Seq<[u8; 32]>,
    key: [u8; 32],
    reservation: u64,
)
    requires
        rolled_back(so_far, reserved, reservation) == before,
        !so_far.contains_key(key),
        now.contains_key(key),
        held_by(now[key], reservation),
        now == so_far.insert(key, now[key]),
        forall|k: [u8; 32]| #[trigger]
            so_far.contains_key(k) ==> before.contains_key(k) || reserved.contains(k),
    ensures
        rolled_back(now, reserved.push(key), reservation) == before,
        forall|k: [u8; 32]| #[trigger]
            now.contains_key(k) ==> before.contains_key(k) || reserved.push(key).contains(k),
{
    let more = reserved.push(key);
    assert forall|k: [u8; 32]| #[trigger] more.contains(k) <==> reserved.contains(k) || k == key by {
        if reserved.contains(k) {
            let p = choose|p: int| 0 <= p < reserved.len() && reserved[p] == k;
            assert(more[p] == k);
        }
        assert(more[reserved.len() as int] == key);
    }
    assert(rolled_back(now, more, reservation) =~= rolled_back(so_far, reserved, reservation));
}

/// What has stopped a batch stays what has stopped it.
proof fn lemma_stopped(
    memory: Map<[u8; 32], DedupEntry>,
    ops: Seq<OperationView>,
    stored: Seq<Option<[u8; 32]>>,
    order: Seq<int>,
    n: int,
    reservation: u64,
)
    requires
        0 <= n <= order.len(),
        reserving(memory, ops, stored, order.take(n), reservation).stop is Some,
    ensures
        reserving(memory, ops, stored, order, reservation) == reserving(
            memory,
            ops,
            stored,
            order.take(n),
            reservation,
        ),
    decreases order.len() - n,
{
    if n == order.len() {
        assert(order.take(n) =~= order);
    } else {
        assert(order.take(n + 1).drop_last() =~= order.take(n));
        lemma_stopped(memory, ops, stored, order, n + 1, reservation);
    }
}

// ---------------------------------------------------------------- the end of a batch
/// A batch that is coming to its end.
pub ghost struct Finishing {
    pub memory: Map<[u8; 32], DedupEntry>,
    /// What the disk is to hold, key and fingerprint.
    pub disk: Seq<([u8; 32], [u8; 32])>,
    /// The reservations that have come to their end.
    pub released: Seq<u64>,
}

/// A batch after the end of one more of its operations.
pub open spec fn finish_one(state: Finishing, key: [u8; 32], committed: bool) -> Finishing {
    match state.memory.get(key) {
        Some(DedupEntry::Pending { fingerprint, reservation }) => if committed {
            Finishing {
                memory: state.memory.insert(key, DedupEntry::Committed(fingerprint)),
                disk: state.disk.push((key, fingerprint)),
                released: state.released.push(reservation),
            }
        } else {
            Finishing {
                memory: state.memory.remove(key),
                disk: state.disk,
                released: state.released.push(reservation),
            }
        },
        Some(DedupEntry::Committed(known)) => if committed {
            state
        } else {
            Finishing { memory: state.memory.remove(key), ..state }
        },
        None => state,
    }
}

/// A batch after the end of the operations in `order`.
pub open spec fn finishing(
    memory: Map<[u8; 32], DedupEntry>,
    keys: Seq<[u8; 32]>,
    order: Seq<int>,
    committed: bool,
) -> Finishing
    decreases order.len(),
{
    if order.len() == 0 {
        Finishing { memory, disk: Seq::empty(), released: Seq::empty() }
    } else {
        finish_one(
            finishing(memory, keys, order.drop_last(), committed),
            keys[order.last()],
            committed,
        )
    }
}

/// The number of operations that flags speak of.
pub open spec fn flagged(ops: Seq<OperationView>, new: Seq<bool>) -> int {
    if new.len() < ops.len() {
        new.len() as int
    } else {
        ops.len() as int
    }
}

/// The end of a batch, for those of its operations that are flagged as new.
pub open spec fn finished(
    memory: Map<[u8; 32], DedupEntry>,
    ops: Seq<OperationView>,
    new: Seq<bool>,
    committed: bool,
) -> Finishing {
    let n = flagged(ops, new);
    let keys = batch_keys(ops.take(n));
    finishing(memory, keys, visit_order(keys, new.take(n)), committed)
}

/// What the end of a batch leaves to be done.
#[derive(Debug)]
pub struct Finished {
    /// What the disk is to hold, key and fingerprint.
    pub disk_entries: Vec<([u8; 32], [u8; 32])>,
    /// The reservations that have come to their end.
    pub released: Vec<u64>,
}

/// Ends a batch: the operations that were held for it are committed, or else
/// forgotten.
pub fn finish_reserved(
    memory: &mut Dedup,
    operations: &[Operation],
    new: &[bool],
    committed: bool,
) -> (result: Finished)
    requires
        old(memory).wf(),
    ensures
        final(memory).wf(),
        final(memory).shards() == old(memory).shards(),
        (Finishing {
            memory: final(memory)@,
            disk: result.disk_entries@,
            released: result.released@,
        }) == finished(old(memory)@, operation_views(operations@), new@, committed),
{
    let ghost ops = operation_views(operations@);
    let n: usize = if new.len() < operations.len() {
        new.len()
    } else {
        operations.len()
    };
    let part: &[Operation] = vstd::slice::slice_subrange(operations, 0, n);
    let flags: &[bool] = vstd::slice::slice_subrange(new, 0, n);
    assert(operation_views(part@) =~= ops.take(n as int));
    assert(flags@ =~= new@.take(n as int));
    let keys: Vec<[u8; 32]> = hash_ids(part);
    let order: Vec<usize> = order_visits(keys.as_slice(), flags);
    let ghost visits = visit_order(keys@, flags@);
    let ghost before = memory@;
    let mut disk_entries: Vec<([u8; 32], [u8; 32])> = Vec::new();
    let mut released: Vec<u64> = Vec::new();
    let mut at: usize = 0;
    assert(visits.take(0) =~= Seq::empty());
    assert(disk_entries@ =~= Seq::empty());
    assert(released@ =~= Seq::empty());
    while at < order.len()
        invariant
            at <= order@.len(),
            memory.wf(),
            memory.shards() == old(memory).shards(),
            positions(order@) == visits,
            forall|p: int| 0 <= p < order@.len() ==> (#[trigger] order@[p]) < keys@.len(),
            (Finishing { memory: memory@, disk: disk_entries@, released: released@ })
                == finishing(before, keys@, visits.take(at as int), committed),
        decreases order@.len() - at,
    {
        let key: DedupKey = DedupKey { bytes: keys[order[at]] };
        proof {
            let then = visits.take(at + 1);
            assert(then.drop_last() =~= visits.take(at as int));
            assert(then.last() == positions(order@)[at as int]);
        }
        if committed {
            match memory.get(&key) {
                Some(DedupEntry::Pending { fingerprint, reservation }) => {
                    disk_entries.push((key.bytes, fingerprint));
                    released.push(reservation);
                    memory.insert(key, DedupEntry::Committed(fingerprint));
                },
                _ => {},
            }
        } else {
            let ghost so_far = memory@;
            match memory.remove(&key) {
                Some(DedupEntry::Pending { fingerprint: _, reservation }) => {
                    released.push(reservation);
                },
                Some(DedupEntry::Committed(_)) => {},
                None => {
                    assert(memory@ =~= so_far);
                },
            }
        }
        at = at + 1;
    }
    assert(visits.take(at as int) =~= visits);
    Finished { disk_entries, released }
}

// ---------------------------------------------------------------- moving to the disk
/// Whether `entries` say of a key what the index has committed.
pub open spec fn persisted(
    memory: Map<[u8; 32], DedupEntry>,
    entries: Seq<([u8; 32], [u8; 32])>,
    key: [u8; 32],
) -> bool {
    memory[key] matches DedupEntry::Committed(known) && entries.contains((key, known))
}

/// The index after these entries have come to the disk: it no longer holds what
/// they say.
pub open spec fn retired(
    memory: Map<[u8; 32], DedupEntry>,
    entries: Seq<([u8; 32], [u8; 32])>,
) -> Map<[u8; 32], DedupEntry> {
    memory.restrict(
        Set::new(|key: [u8; 32]| memory.contains_key(key) && !persisted(memory, entries, key)),
    )
}

/// Lets go of what has come to the disk.
pub fn retire_persisted(memory: &mut Dedup, entries: &[([u8; 32], [u8; 32])])
    requires
        old(memory).wf(),
    ensures
        final(memory).wf(),
        final(memory).shards() == old(memory).shards(),
        final(memory)@ == retired(old(memory)@, entries@),
{
    let ghost before = memory@;
    let mut at: usize = 0;
    assert(memory@ =~= retired(before, entries@.take(0)));
    while at < entries.len()
        invariant
            at <= entries@.len(),
            memory.wf(),
            memory.shards() == old(memory).shards(),
            memory@ == retired(before, entries@.take(at as int)),
        decreases entries@.len() - at,
    {
        let entry: ([u8; 32], [u8; 32]) = entries[at];
        let key: DedupKey = DedupKey { bytes: entry.0 };
        match memory.get(&key) {
            Some(DedupEntry::Committed(known)) => {
                if same_digest(&known, &entry.1) {
                    let _entry: Option<DedupEntry> = memory.remove(&key);
                }
            },
            _ => {},
        }
        proof {
            let now = entries@.take(at as int);
            let then = entries@.take(at + 1);
            assert forall|e: ([u8; 32], [u8; 32])| #[trigger] then.contains(e) <==> now.contains(e) || e
                == entry by {
                if now.contains(e) {
                    let p = choose|p: int| 0 <= p < now.len() && now[p] == e;
                    assert(then[p] == e);
                }
                assert(then[at as int] == entry);
            }
            assert(memory@ =~= retired(before, then));
        }
        at = at + 1;
    }
    assert(entries@.take(at as int) =~= entries@);
}

// ---------------------------------------------------------------- laws
/// The shard of a key is told by its first two bytes, as a little-endian number modulo
/// the number of shards: keys that agree in them share a shard, and a second byte
/// that is one higher lies 256 shards further.
pub proof fn law_shard_is_told_by_two_bytes(key: [u8; 32], other: [u8; 32], count: usize)
    requires
        count > 0,
    ensures
        0 <= key_shard(key, count) < count,
        (key@[0] + 256 * key@[1] - key_shard(key, count)) % (count as int) == 0,
        key@[0] == other@[0] && key@[1] == other@[1] ==> key_shard(key, count) == key_shard(
            other,
            count,
        ),
        key_shard(key, DEDUP_SHARDS) == key@[0] as int % 64,
{
    let n = key@[0] + 256 * key@[1];
    vstd::arithmetic::div_mod::lemma_fundamental_div_mod(n, count as int);
    vstd::arithmetic::div_mod::lemma_mod_multiples_basic(n / (count as int), count as int);
    assert(n - n % (count as int) == (n / (count as int)) * (count as int)) by (nonlinear_arith)
        requires
            n == (count as int) * (n / (count as int)) + n % (count as int),
    ;
}

/// Operations are visited by their shard, and within a shard as they stand in the
/// batch: all that are wanted, and none twice.
pub proof fn law_visits_go_by_shard_and_place(keys: Seq<[u8; 32]>, wanted: Seq<bool>)
    ensures
        ({
            let order = visit_order(keys, wanted);
            &&& forall|i: int| #[trigger]
                order.contains(i) <==> 0 <= i < keys.len() && wanted[i]
            &&& forall|p: int, q: int|
                0 <= p < q < order.len() ==> {
                    let (a, b) = (#[trigger] order[p], #[trigger] order[q]);
                    key_shard(keys[a], 64) < key_shard(keys[b], 64) || key_shard(keys[a], 64)
                        == key_shard(keys[b], 64) && a < b
                }
        }),
{
    lemma_visit_order(keys, wanted);
    lemma_visits_sorted(keys, wanted, DEDUP_SHARDS as int);
}

proof fn lemma_shard_visits_sorted(keys: Seq<[u8; 32]>, wanted: Seq<bool>, shard: int, n: int)
    ensures
        ({
            let order = shard_visits(keys, wanted, shard, n);
            forall|p: int, q: int|
                0 <= p < q < order.len() ==> #[trigger] order[p] < #[trigger] order[q]
        }),
    decreases n,
{
    if n > 0 {
        lemma_shard_visits_sorted(keys, wanted, shard, n - 1);
        lemma_shard_visits(keys, wanted, shard, n - 1);
        let before = shard_visits(keys, wanted, shard, n - 1);
        assert forall|p: int| 0 <= p < before.len() implies #[trigger] before[p] < n - 1 by {
            assert(before.contains(before[p]));
        }
    }
}

proof fn lemma_visits_sorted(keys: Seq<[u8; 32]>, wanted: Seq<bool>, shards: int)
    ensures
        ({
            let order = visits(keys, wanted, shards);
            forall|p: int, q: int|
                0 <= p < q < order.len() ==> {
                    let (a, b) = (#[trigger] order[p], #[trigger] order[q]);
                    key_shard(keys[a], DEDUP_SHARDS) < key_shard(keys[b], DEDUP_SHARDS) || key_shard(
                        keys[a],
                        DEDUP_SHARDS,
                    ) == key_shard(keys[b], DEDUP_SHARDS) && a < b
                }
        }),
    decreases shards,
{
    if shards > 0 {
        lemma_visits_sorted(keys, wanted, shards - 1);
        lemma_visits(keys, wanted, shards - 1);
        lemma_shard_visits_sorted(keys, wanted, shards - 1, keys.len() as int);
        lemma_shard_visits(keys, wanted, shards - 1, keys.len() as int);
        let before = visits(keys, wanted, shards - 1);
        let more = shard_visits(keys, wanted, shards - 1, keys.len() as int);
        assert forall|p: int| 0 <= p < before.len() implies key_shard(
            keys[#[trigger] before[p]],
            DEDUP_SHARDS,
        ) < shards - 1 by {
            assert(before.contains(before[p]));
        }
        assert forall|p: int| 0 <= p < more.len() implies key_shard(
            keys[#[trigger] more[p]],
            DEDUP_SHARDS,
        ) == shards - 1 by {
            assert(more.contains(more[p]));
        }
    }
}

/// What the index says is decided by what it holds itself, and only where it holds
/// nothing by what the disk holds: the same content is known, or held by the batch
/// that is on its way with it; other content is taken; and nothing held is fresh.
pub proof fn law_verdict_goes_by_memory_and_disk(
    known: [u8; 32],
    reservation: u64,
    stored: Option<[u8; 32]>,
    print: [u8; 32],
)
    ensures
        ({
            let committed = verdict(Some(DedupEntry::Committed(known)), stored, print);
            &&& committed is Known <==> known == print
            &&& committed is Taken <==> known != print
        }),
        ({
            let pending = verdict(
                Some(DedupEntry::Pending { fingerprint: known, reservation }),
                stored,
                print,
            );
            &&& known == print ==> pending == Verdict::Held(reservation)
            &&& pending is Taken <==> known != print
        }),
        verdict(None, None, print) is Fresh,
        verdict(None, Some(known), print) is Known <==> known == print,
        verdict(None, Some(known), print) is Taken <==> known != print,
{
}

/// Giving back a reservation takes from the index exactly what that reservation holds
/// under the keys, and leaves everything else as it was.
pub proof fn law_rollback_takes_what_the_reservation_holds(
    memory: Map<[u8; 32], DedupEntry>,
    keys: Seq<[u8; 32]>,
    reservation: u64,
    key: [u8; 32],
)
    ensures
        ({
            let after = rolled_back(memory, keys, reservation);
            let held = keys.contains(key) && memory.contains_key(key) && (memory[key]
                matches DedupEntry::Pending { fingerprint, reservation: holder } && holder
                == reservation);
            &&& held ==> !after.contains_key(key)
            &&& !held ==> after.contains_key(key) == memory.contains_key(key)
            &&& !held && memory.contains_key(key) ==> after[key] == memory[key]
        }),
{
}

/// What has come to the disk leaves the index exactly where the index has committed
/// the very thing that was written; everything else stays as it was.
pub proof fn law_retirement_takes_what_was_written(
    memory: Map<[u8; 32], DedupEntry>,
    entries: Seq<([u8; 32], [u8; 32])>,
    key: [u8; 32],
)
    ensures
        ({
            let after = retired(memory, entries);
            let written = memory.contains_key(key) && (memory[key] matches DedupEntry::Committed(
                known,
            ) && entries.contains((key, known)));
            &&& written ==> !after.contains_key(key)
            &&& !written ==> after.contains_key(key) == memory.contains_key(key)
            &&& !written && memory.contains_key(key) ==> after[key] == memory[key]
        }),
{
}

/// What is said of the answer to a batch is what it holds, and what is said of places in
/// a batch is said of each.
pub proof fn law_answer_says_what_it_holds(
    new: Vec<bool>,
    reservation: u64,
    error: ConflictError,
    order: Seq<usize>,
    i: int,
)
    ensures
        Preflight::Ready(new)@ == PreflightView::Ready(new@),
        Preflight::Wait(reservation)@ == PreflightView::Wait(reservation),
        Preflight::Conflict(error)@ == PreflightView::Conflict(error.0@),
        positions(order).len() == order.len(),
        0 <= i < order.len() ==> positions(order)[i] == order[i],
{
}

} // verus!
