//! The deduplication index on the disk: how it is split over stores, and how a
//! batch of keys is looked up in them.

use vstd::prelude::*;
use vstd::string::StringExecFns;

use crate::bloom::{
    bit_count, bloom_maybe, law_every_noted_key_may_be_present, law_merged_filter_keeps_both, may_hold, merged,
    notes,
};
use crate::codec::{get_uint, le_value};
use crate::snapshot::{array_of, lemma_array_of, to_array};
use crate::text::{append_decimal, decimal_text};

verus! {

/// The number of older stores that the keys were spread over.
pub const DEDUP_SHARDS: usize = 16;

/// The number of keyspaces that the keys are spread over.
pub const DEDUP_LSM_SHARDS: usize = 64;

// ---------------------------------------------------------------- where a key is kept
/// The older store that a key was kept in.
pub fn dedup_disk_shard(key: &[u8; 32]) -> (shard: usize)
    ensures
        shard == key@[0] % 16,
        shard < DEDUP_SHARDS,
        answers(Source::LegacyShard(shard), *key),
{
    let byte: usize = key[0] as usize;
    assert(byte & 15 == byte % 16) by (bit_vector);
    byte & (DEDUP_SHARDS - 1)
}

/// The keyspace that a key is kept in.
pub fn dedup_lsm_shard(key: &[u8; 32]) -> (shard: usize)
    ensures
        shard == key@[0] % 64,
        shard < DEDUP_LSM_SHARDS,
        home(*key) == Source::LsmShard(shard),
        answers(Source::LsmShard(shard), *key),
{
    let byte: usize = key[0] as usize;
    assert(byte & 63 == byte % 64) by (bit_vector);
    byte & (DEDUP_LSM_SHARDS - 1)
}

/// A number in decimal digits, at least two of them.
pub open spec fn two_digits(n: nat) -> Seq<char> {
    if n < 10 {
        "0"@ + decimal_text(n)
    } else {
        decimal_text(n)
    }
}

fn append_two_digits(out: &mut String, n: usize)
    ensures
        final(out)@ == old(out)@ + two_digits(n as nat),
{
    if n < 10 {
        out.append("0");
    }
    append_decimal(out, n as u64);
    assert(out@ =~= old(out)@ + two_digits(n as nat));
}

/// The name of a keyspace.
pub fn lsm_shard_name(shard: usize) -> (name: String)
    ensures
        name@ == "dedup_v2_"@ + two_digits(shard as nat),
{
    let mut name: String = String::from_str("dedup_v2_");
    append_two_digits(&mut name, shard);
    name
}

/// The file name of an older store, beside a file with this stem.
pub fn dedup_shard_file(stem: &str, shard: usize) -> (name: String)
    ensures
        name@ == stem@ + ".shard-"@ + two_digits(shard as nat) + ".redb"@,
{
    let mut name: String = String::from_str(stem);
    name.append(".shard-");
    append_two_digits(&mut name, shard);
    name.append(".redb");
    name
}

// ---------------------------------------------------------------- what is kept
/// Something on the disk does not have the length that it should.
#[derive(Clone, Copy, Debug, PartialEq, Eq, Structural)]
pub enum DiskError {
    InvalidFingerprint,
    InvalidMetadata,
}

/// The fingerprint in stored bytes.
pub fn fingerprint_bytes(bytes: &[u8]) -> (result: Result<[u8; 32], DiskError>)
    ensures
        match result {
            Ok(print) => bytes@.len() == 32 && print@ == bytes@ && print == array_of(bytes@),
            Err(e) => bytes@.len() != 32 && e == DiskError::InvalidFingerprint,
        },
{
    if bytes.len() != 32 {
        return Err(DiskError::InvalidFingerprint);
    }
    Ok(to_array(bytes))
}

/// The number in stored metadata; nothing stored means zero.
pub fn lsm_u64(value: Option<&[u8]>) -> (result: Result<u64, DiskError>)
    ensures
        match (value, result) {
            (None, Ok(n)) => n == 0,
            (Some(bytes), Ok(n)) => bytes@.len() == 8 && n as nat == le_value(bytes@),
            (Some(bytes), Err(e)) => bytes@.len() != 8 && e == DiskError::InvalidMetadata,
            (None, Err(_)) => false,
        },
{
    match value {
        None => Ok(0),
        Some(bytes) => {
            if bytes.len() != 8 {
                return Err(DiskError::InvalidMetadata);
            }
            Ok(get_uint(bytes))
        },
    }
}

/// Whether the older stores have to be asked: one of them holds something.
pub fn legacy_fallback(lens: &[u64]) -> (result: bool)
    ensures
        result == exists|i: int| 0 <= i < lens@.len() && #[trigger] lens@[i] > 0,
        result == any_held(lens@),
{
    let mut at: usize = 0;
    while at < lens.len()
        invariant
            at <= lens@.len(),
            forall|i: int| 0 <= i < at ==> #[trigger] lens@[i] == 0,
        decreases lens@.len() - at,
    {
        if lens[at] > 0 {
            return true;
        }
        at = at + 1;
    }
    false
}

/// Whether the filter is ready from the start: no store from before holds anything
/// that it would not know of.
pub fn bloom_starts_ready(index_existed: bool, lsm_existed: bool) -> (ready: bool)
    ensures
        ready == (!index_existed && !lsm_existed),
        ready == starts_ready(index_existed, lsm_existed),
{
    !index_existed && !lsm_existed
}

/// How many keys the first `n` stores hold together.
pub open spec fn total_len(lens: Seq<u64>, n: int) -> int
    decreases n,
{
    if n <= 0 {
        0
    } else {
        total_len(lens, n - 1) + lens[n - 1]
    }
}

proof fn lemma_total_len_grows(lens: Seq<u64>, i: int, n: int)
    requires
        0 <= i <= n,
    ensures
        0 <= total_len(lens, i) <= total_len(lens, n),
    decreases n,
{
    if i < n {
        lemma_total_len_grows(lens, i, n - 1);
    } else if n > 0 {
        lemma_total_len_grows(lens, i - 1, n - 1);
    }
}

/// How many keys the stores hold together, where that can be said.
pub fn index_len(lens: &[u64]) -> (total: Option<u64>)
    ensures
        match total {
            Some(total) => total == total_len(lens@, lens@.len() as int),
            None => total_len(lens@, lens@.len() as int) > u64::MAX,
        },
{
    let mut total: u64 = 0;
    let mut at: usize = 0;
    while at < lens.len()
        invariant
            at <= lens@.len(),
            total == total_len(lens@, at as int),
        decreases lens@.len() - at,
    {
        match total.checked_add(lens[at]) {
            Some(more) => {
                total = more;
            },
            None => {
                proof {
                    lemma_total_len_grows(lens@, at + 1, lens@.len() as int);
                }
                return None;
            },
        }
        at = at + 1;
    }
    Some(total)
}

// ---------------------------------------------------------------- looking up a batch
/// A store that keys are looked up in.
#[derive(Clone, Copy, Debug, PartialEq, Eq, Structural)]
pub enum Source {
    /// One of the keyspaces that keys are spread over.
    LsmShard(usize),
    /// The keyspace that all keys were kept in.
    Lsm,
    /// One of the older stores that keys were spread over.
    LegacyShard(usize),
    /// The oldest store, which all keys were kept in.
    Legacy,
}

/// Whether a store can hold a key.
pub open spec fn answers(source: Source, key: [u8; 32]) -> bool {
    match source {
        Source::LsmShard(shard) => key@[0] % 64 == shard,
        Source::Lsm => true,
        Source::LegacyShard(shard) => key@[0] % 16 == shard,
        Source::Legacy => true,
    }
}

/// The stores in the order in which they are asked.
pub open spec fn sources(legacy: bool) -> Seq<Source> {
    let lsm = Seq::new(DEDUP_LSM_SHARDS as nat, |i: int| Source::LsmShard(i as usize)).push(
        Source::Lsm,
    );
    if legacy {
        lsm + Seq::new(DEDUP_SHARDS as nat, |i: int| Source::LegacyShard(i as usize)).push(
            Source::Legacy,
        )
    } else {
        lsm
    }
}

/// The stores in the order in which they are asked.
pub fn lookup_sources(legacy: bool) -> (order: Vec<Source>)
    ensures
        order@ == sources(legacy),
{
    let mut order: Vec<Source> = Vec::new();
    while order.len() < DEDUP_LSM_SHARDS
        invariant
            order@.len() <= DEDUP_LSM_SHARDS,
            forall|i: int| 0 <= i < order@.len() ==> #[trigger] order@[i] == Source::LsmShard(i as usize),
        decreases DEDUP_LSM_SHARDS - order@.len(),
    {
        let shard: usize = order.len();
        order.push(Source::LsmShard(shard));
    }
    order.push(Source::Lsm);
    let ghost lsm = order@;
    assert(lsm =~= sources(false));
    if legacy {
        let mut shard: usize = 0;
        while shard < DEDUP_SHARDS
            invariant
                shard <= DEDUP_SHARDS,
                lsm.len() == DEDUP_LSM_SHARDS + 1,
                order@ == lsm + Seq::new(shard as nat, |i: int| Source::LegacyShard(i as usize)),
            decreases DEDUP_SHARDS - shard,
        {
            order.push(Source::LegacyShard(shard));
            shard = shard + 1;
            assert(order@ =~= lsm + Seq::new(
                shard as nat,
                |i: int| Source::LegacyShard(i as usize),
            ));
        }
        order.push(Source::Legacy);
        assert(order@ =~= sources(true));
    }
    order
}

fn can_answer(source: Source, key: &[u8; 32]) -> (result: bool)
    ensures
        result == answers(source, *key),
{
    match source {
        Source::LsmShard(shard) => dedup_lsm_shard(key) == shard,
        Source::Lsm => true,
        Source::LegacyShard(shard) => dedup_disk_shard(key) == shard,
        Source::Legacy => true,
    }
}

/// A batch of keys that is being looked up.
pub struct Lookup {
    keys: Vec<[u8; 32]>,
    candidates: Vec<bool>,
    found: Vec<Option<[u8; 32]>>,
}

/// What a batch of keys that is being looked up says.
pub ghost struct LookupView {
    pub keys: Seq<[u8; 32]>,
    /// Which keys may be present at all.
    pub candidates: Seq<bool>,
    /// What was found so far.
    pub found: Seq<Option<[u8; 32]>>,
}

impl View for Lookup {
    type V = LookupView;

    closed spec fn view(&self) -> LookupView {
        LookupView { keys: self.keys@, candidates: self.candidates@, found: self.found@ }
    }
}

/// Whether a store has to be asked for key `i`.
pub open spec fn is_open(lookup: LookupView, source: Source, i: int) -> bool {
    lookup.candidates[i] && lookup.found[i] is None && answers(source, lookup.keys[i])
}

/// Which of the first `n` keys a store has to be asked for.
pub open spec fn open_keys(lookup: LookupView, source: Source, n: int) -> Seq<int>
    decreases n,
{
    if n <= 0 {
        Seq::empty()
    } else if is_open(lookup, source, n - 1) {
        open_keys(lookup, source, n - 1).push(n - 1)
    } else {
        open_keys(lookup, source, n - 1)
    }
}

/// What a store answered, as plain values.
pub open spec fn value_views(values: Seq<Option<Vec<u8>>>) -> Seq<Option<Seq<u8>>> {
    values.map_values(
        |value: Option<Vec<u8>>|
            match value {
                Some(bytes) => Some(bytes@),
                None => None,
            },
    )
}

/// What is found after the first `n` answers of a store.
pub open spec fn absorbed(
    found: Seq<Option<[u8; 32]>>,
    indices: Seq<usize>,
    values: Seq<Option<Seq<u8>>>,
    n: int,
) -> Seq<Option<[u8; 32]>>
    decreases n,
{
    if n <= 0 {
        found
    } else {
        let before = absorbed(found, indices, values, n - 1);
        match values[n - 1] {
            Some(bytes) => before.update(indices[n - 1] as int, Some(array_of(bytes))),
            None => before,
        }
    }
}

/// Whether every answer has the length of a fingerprint.
pub open spec fn well_sized(values: Seq<Option<Seq<u8>>>) -> bool {
    forall|i: int| 0 <= i < values.len() ==> ((#[trigger] values[i]) matches Some(bytes) ==> bytes.len() == 32)
}

impl Lookup {
    pub closed spec fn wf(&self) -> bool {
        &&& self.candidates@.len() == self.keys@.len()
        &&& self.found@.len() == self.keys@.len()
    }

    /// A batch of keys to be looked up. Where the filter is ready, a key that it
    /// does not hold is not looked for.
    pub fn new(keys: Vec<[u8; 32]>, bloom: &[u8], ready: bool) -> (lookup: Lookup)
        requires
            0 < bloom@.len(),
            bit_count(bloom@) <= usize::MAX,
        ensures
            lookup.wf(),
            lookup@.keys == keys@,
            lookup@.candidates == Seq::new(
                keys@.len(),
                |i: int| !ready || may_hold(bloom@, keys@[i]),
            ),
            lookup@.found == Seq::new(keys@.len(), |i: int| None::<[u8; 32]>),
            lookup@ == lookup_of(keys@, bloom@, ready),
    {
        let mut candidates: Vec<bool> = Vec::new();
        let mut found: Vec<Option<[u8; 32]>> = Vec::new();
        let mut at: usize = 0;
        while at < keys.len()
            invariant
                at <= keys@.len(),
                0 < bloom@.len(),
                bit_count(bloom@) <= usize::MAX,
                candidates@ == Seq::new(at as nat, |i: int| !ready || may_hold(bloom@, keys@[i])),
                found@ == Seq::new(at as nat, |i: int| None::<[u8; 32]>),
            decreases keys@.len() - at,
        {
            candidates.push(!ready || bloom_maybe(bloom, &keys[at]));
            found.push(None);
            at = at + 1;
            assert(candidates@ =~= Seq::new(at as nat, |i: int| !ready || may_hold(bloom@, keys@[i])));
            assert(found@ =~= Seq::new(at as nat, |i: int| None::<[u8; 32]>));
        }
        Lookup { keys, candidates, found }
    }

    /// Whether any key may be present.
    pub fn any_candidate(&self) -> (result: bool)
        ensures
            result == self@.candidates.contains(true),
    {
        let mut at: usize = 0;
        while at < self.candidates.len()
            invariant
                at <= self.candidates@.len(),
                forall|i: int| 0 <= i < at ==> !#[trigger] self.candidates@[i],
            decreases self.candidates@.len() - at,
        {
            if self.candidates[at] {
                assert(self.candidates@[at as int]);
                return true;
            }
            at = at + 1;
        }
        false
    }

    /// Which keys a store has to be asked for: those that may be present, were not
    /// found yet, and belong to it.
    pub fn questions(&self, source: Source) -> (indices: Vec<usize>)
        requires
            self.wf(),
        ensures
            indices@.map_values(|i: usize| i as int) == open_keys(
                self@,
                source,
                self@.keys.len() as int,
            ),
            forall|p: int| 0 <= p < indices@.len() ==> (#[trigger] indices@[p]) < self@.keys.len(),
    {
        let mut indices: Vec<usize> = Vec::new();
        let mut at: usize = 0;
        assert(indices@.map_values(|i: usize| i as int) =~= Seq::empty());
        while at < self.keys.len()
            invariant
                at <= self.keys@.len(),
                self.wf(),
                indices@.map_values(|i: usize| i as int) == open_keys(self@, source, at as int),
                forall|p: int| 0 <= p < indices@.len() ==> (#[trigger] indices@[p]) < self@.keys.len(),
            decreases self.keys@.len() - at,
        {
            let ghost before = indices@;
            if self.candidates[at] && self.found[at].is_none() && can_answer(source, &self.keys[at]) {
                indices.push(at);
                assert(indices@.map_values(|i: usize| i as int) =~= before.map_values(
                    |i: usize| i as int,
                ).push(at as int));
            }
            at = at + 1;
        }
        indices
    }

    /// A key of the batch.
    pub fn key(&self, index: usize) -> (key: [u8; 32])
        requires
            self.wf(),
            index < self@.keys.len(),
        ensures
            key == self@.keys[index as int],
    {
        self.keys[index]
    }

    /// Takes in what a store answered for some keys.
    pub fn absorb(&mut self, indices: &[usize], values: &[Option<Vec<u8>>]) -> (result: Result<
        (),
        DiskError,
    >)
        requires
            old(self).wf(),
            values@.len() == indices@.len(),
            forall|p: int| 0 <= p < indices@.len() ==> (#[trigger] indices@[p]) < old(self)@.keys.len(),
        ensures
            final(self).wf(),
            final(self)@.keys == old(self)@.keys,
            final(self)@.candidates == old(self)@.candidates,
            match result {
                Ok(()) => well_sized(value_views(values@)) && final(self)@.found == absorbed(
                    old(self)@.found,
                    indices@,
                    value_views(values@),
                    indices@.len() as int,
                ),
                Err(e) => !well_sized(value_views(values@)) && e == DiskError::InvalidFingerprint,
            },
    {
        let ghost answered = value_views(values@);
        let mut at: usize = 0;
        while at < indices.len()
            invariant
                at <= indices@.len(),
                values@.len() == indices@.len(),
                answered == value_views(values@),
                forall|p: int|
                    0 <= p < indices@.len() ==> (#[trigger] indices@[p]) < old(self)@.keys.len(),
                self.wf(),
                self.keys == old(self).keys,
                self.candidates == old(self).candidates,
                forall|p: int|
                    0 <= p < at ==> ((#[trigger] answered[p]) matches Some(bytes) ==> bytes.len() == 32),
                self.found@ == absorbed(old(self)@.found, indices@, answered, at as int),
            decreases indices@.len() - at,
        {
            match &values[at] {
                None => {
                    assert(answered[at as int] is None);
                },
                Some(bytes) => {
                    assert(answered[at as int] == Some(bytes@));
                    match fingerprint_bytes(bytes.as_slice()) {
                        Ok(print) => {
                            self.found.set(indices[at], Some(print));
                        },
                        Err(e) => {
                            return Err(e);
                        },
                    }
                },
            }
            at = at + 1;
        }
        Ok(())
    }

    /// What was found, key by key.
    pub fn into_found(self) -> (found: Vec<Option<[u8; 32]>>)
        ensures
            found@ == self@.found,
    {
        self.found
    }
}

// ---------------------------------------------------------------- laws
/// What is found of a key by asking stores in turn: the first answer counts.
pub open spec fn first_hit(
    held: spec_fn(Source, [u8; 32]) -> Option<Seq<u8>>,
    key: [u8; 32],
    asked: Seq<Source>,
) -> Option<[u8; 32]>
    decreases asked.len(),
{
    if asked.len() == 0 {
        None
    } else {
        let before = first_hit(held, key, asked.drop_last());
        if before is Some || !answers(asked.last(), key) {
            before
        } else {
            match held(asked.last(), key) {
                Some(bytes) => Some(array_of(bytes)),
                None => None,
            }
        }
    }
}

/// What a store answers to the keys that it is asked for.
pub open spec fn replies(
    held: spec_fn(Source, [u8; 32]) -> Option<Seq<u8>>,
    lookup: LookupView,
    source: Source,
) -> Seq<Option<Seq<u8>>> {
    open_keys(lookup, source, lookup.keys.len() as int).map_values(
        |i: int| held(source, lookup.keys[i]),
    )
}

/// A batch after a store was asked and its answers were taken in.
pub open spec fn ask_one(
    held: spec_fn(Source, [u8; 32]) -> Option<Seq<u8>>,
    lookup: LookupView,
    source: Source,
) -> LookupView {
    let indices = open_keys(lookup, source, lookup.keys.len() as int);
    LookupView {
        found: absorbed(
            lookup.found,
            indices.map_values(|i: int| i as usize),
            replies(held, lookup, source),
            indices.len() as int,
        ),
        ..lookup
    }
}

/// A batch after stores were asked in turn.
pub open spec fn ask_all(
    held: spec_fn(Source, [u8; 32]) -> Option<Seq<u8>>,
    lookup: LookupView,
    asked: Seq<Source>,
) -> LookupView
    decreases asked.len(),
{
    if asked.len() == 0 {
        lookup
    } else {
        ask_one(held, ask_all(held, lookup, asked.drop_last()), asked.last())
    }
}

proof fn lemma_open_keys(lookup: LookupView, source: Source, n: int)
    requires
        0 <= n <= lookup.keys.len(),
    ensures
        forall|p: int|
            0 <= p < open_keys(lookup, source, n).len() ==> 0 <= #[trigger] open_keys(
                lookup,
                source,
                n,
            )[p] < n && is_open(lookup, source, open_keys(lookup, source, n)[p]),
        forall|i: int|
            0 <= i < n && #[trigger] is_open(lookup, source, i) ==> open_keys(
                lookup,
                source,
                n,
            ).contains(i),
        forall|p: int, q: int|
            0 <= p < q < open_keys(lookup, source, n).len() ==> #[trigger] open_keys(
                lookup,
                source,
                n,
            )[p] < #[trigger] open_keys(lookup, source, n)[q],
    decreases n,
{
    if n > 0 {
        lemma_open_keys(lookup, source, n - 1);
        let before = open_keys(lookup, source, n - 1);
        let after = open_keys(lookup, source, n);
        assert forall|i: int| 0 <= i < n && #[trigger] is_open(lookup, source, i) implies after.contains(
            i,
        ) by {
            if i < n - 1 {
                assert(before.contains(i));
                let p = choose|p: int| 0 <= p < before.len() && before[p] == i;
                assert(after[p] == i);
            } else {
                assert(after[before.len() as int] == i);
            }
        }
    }
}

proof fn lemma_absorbed(
    found: Seq<Option<[u8; 32]>>,
    indices: Seq<usize>,
    values: Seq<Option<Seq<u8>>>,
    n: int,
)
    requires
        0 <= n <= indices.len(),
        values.len() == indices.len(),
        forall|p: int| 0 <= p < indices.len() ==> (#[trigger] indices[p]) < found.len(),
        forall|p: int, q: int|
            0 <= p < q < indices.len() ==> #[trigger] indices[p] < #[trigger] indices[q],
    ensures
        absorbed(found, indices, values, n).len() == found.len(),
        forall|p: int|
            0 <= p < n ==> absorbed(found, indices, values, n)[#[trigger] indices[p] as int] == (
            match values[p] {
                Some(bytes) => Some(array_of(bytes)),
                None => found[indices[p] as int],
            }),
        forall|i: int|
            0 <= i < found.len() && (forall|p: int| 0 <= p < n ==> #[trigger] indices[p] != i)
                ==> #[trigger] absorbed(found, indices, values, n)[i] == found[i],
    decreases n,
{
    if n > 0 {
        lemma_absorbed(found, indices, values, n - 1);
        let before = absorbed(found, indices, values, n - 1);
        let after = absorbed(found, indices, values, n);
        let last = indices[n - 1] as int;
        assert(before[last] == found[last]) by {
            assert forall|p: int| 0 <= p < n - 1 implies #[trigger] indices[p] != last by {
                assert(indices[p] < indices[n - 1]);
            }
        }
        assert forall|p: int| 0 <= p < n implies after[#[trigger] indices[p] as int] == (match values[p] {
            Some(bytes) => Some(array_of(bytes)),
            None => found[indices[p] as int],
        }) by {
            if p < n - 1 {
                assert(indices[p] < indices[n - 1]);
            }
        }
        assert forall|i: int|
            0 <= i < found.len() && (forall|p: int| 0 <= p < n ==> #[trigger] indices[p] != i) implies #[trigger] after[i]
            == found[i] by {
            assert(indices[n - 1] != i);
            assert(before[i] == found[i]);
        }
    }
}

proof fn lemma_ask_one(
    held: spec_fn(Source, [u8; 32]) -> Option<Seq<u8>>,
    lookup: LookupView,
    source: Source,
    i: int,
)
    requires
        lookup.found.len() == lookup.keys.len(),
        lookup.keys.len() <= usize::MAX,
        0 <= i < lookup.keys.len(),
    ensures
        ask_one(held, lookup, source).found.len() == lookup.keys.len(),
        ask_one(held, lookup, source).found[i] == (if is_open(lookup, source, i) {
            match held(source, lookup.keys[i]) {
                Some(bytes) => Some(array_of(bytes)),
                None => None,
            }
        } else {
            lookup.found[i]
        }),
{
    let n = lookup.keys.len() as int;
    let open = open_keys(lookup, source, n);
    let indices = open.map_values(|i: int| i as usize);
    let values = replies(held, lookup, source);
    lemma_open_keys(lookup, source, n);
    assert forall|p: int| 0 <= p < indices.len() implies (#[trigger] indices[p]) < lookup.found.len()
        && indices[p] == open[p] by {
        assert(open[p] < n);
    }
    assert forall|p: int, q: int| 0 <= p < q < indices.len() implies #[trigger] indices[p]
        < #[trigger] indices[q] by {
        assert(open[p] < open[q]);
    }
    lemma_absorbed(lookup.found, indices, values, open.len() as int);
    if is_open(lookup, source, i) {
        assert(open.contains(i));
        let p = choose|p: int| 0 <= p < open.len() && open[p] == i;
        assert(indices[p] == i);
        assert(values[p] == held(source, lookup.keys[i]));
    } else {
        assert forall|p: int| 0 <= p < open.len() implies #[trigger] indices[p] != i by {
            assert(is_open(lookup, source, open[p]));
        }
    }
}

/// Asking the stores in turn finds of each key that may be present the first
/// answer of a store that it belongs to, and of any other key nothing.
pub proof fn law_lookup_finds_the_first_answer(
    held: spec_fn(Source, [u8; 32]) -> Option<Seq<u8>>,
    lookup: LookupView,
    asked: Seq<Source>,
    i: int,
)
    requires
        lookup.keys.len() <= usize::MAX,
        lookup.candidates.len() == lookup.keys.len(),
        lookup.found == Seq::new(lookup.keys.len(), |i: int| None::<[u8; 32]>),
        0 <= i < lookup.keys.len(),
    ensures
        ask_all(held, lookup, asked).keys == lookup.keys,
        ask_all(held, lookup, asked).candidates == lookup.candidates,
        ask_all(held, lookup, asked).found.len() == lookup.keys.len(),
        ask_all(held, lookup, asked).found[i] == if lookup.candidates[i] {
            first_hit(held, lookup.keys[i], asked)
        } else {
            None
        },
    decreases asked.len(),
{
    if asked.len() > 0 {
        law_lookup_finds_the_first_answer(held, lookup, asked.drop_last(), i);
        let before = ask_all(held, lookup, asked.drop_last());
        lemma_ask_one(held, before, asked.last(), i);
    }
}

/// A filter that never calls a present key absent changes nothing of what a
/// lookup finds.
pub proof fn law_filter_hides_nothing(
    held: spec_fn(Source, [u8; 32]) -> Option<Seq<u8>>,
    keys: Seq<[u8; 32]>,
    bloom: Seq<u8>,
    ready: bool,
    asked: Seq<Source>,
    i: int,
)
    requires
        keys.len() <= usize::MAX,
        0 <= i < keys.len(),
        ready && first_hit(held, keys[i], asked) is Some ==> may_hold(bloom, keys[i]),
    ensures
        ask_all(
            held,
            (LookupView {
                keys,
                candidates: Seq::new(keys.len(), |i: int| !ready || may_hold(bloom, keys[i])),
                found: Seq::new(keys.len(), |i: int| None::<[u8; 32]>),
            }),
            asked,
        ).found[i] == first_hit(held, keys[i], asked),
{
    let lookup = LookupView {
        keys,
        candidates: Seq::new(keys.len(), |i: int| !ready || may_hold(bloom, keys[i])),
        found: Seq::new(keys.len(), |i: int| None::<[u8; 32]>),
    };
    law_lookup_finds_the_first_answer(held, lookup, asked, i);
}

// ---------------------------------------------------------------- what is written is found
/// The keyspace that a key is written to.
pub open spec fn home(key: [u8; 32]) -> Source {
    Source::LsmShard((key@[0] % 64) as usize)
}

proof fn lemma_home_comes_first(
    held: spec_fn(Source, [u8; 32]) -> Option<Seq<u8>>,
    key: [u8; 32],
    legacy: bool,
    n: int,
)
    requires
        0 <= n <= sources(legacy).len(),
    ensures
        n <= key@[0] % 64 ==> first_hit(held, key, sources(legacy).take(n)) is None,
        n > key@[0] % 64 && held(home(key), key) is Some ==> first_hit(
            held,
            key,
            sources(legacy).take(n),
        ) == Some(array_of(held(home(key), key)->0)),
    decreases n,
{
    if n > 0 {
        lemma_home_comes_first(held, key, legacy, n - 1);
        let asked = sources(legacy).take(n);
        let home_at = (key@[0] % 64) as int;
        assert(asked.drop_last() =~= sources(legacy).take(n - 1));
        assert(asked.last() == sources(legacy)[n - 1]);
        if n - 1 < 64 {
            assert(asked.last() == Source::LsmShard((n - 1) as usize));
            assert(answers(asked.last(), key) <==> n - 1 == home_at);
        }
    }
}

/// A key that stands in the keyspace it is written to is found with what stands
/// there, whatever other stores hold of it.
pub proof fn law_written_key_is_found(
    held: spec_fn(Source, [u8; 32]) -> Option<Seq<u8>>,
    key: [u8; 32],
    bytes: Seq<u8>,
    legacy: bool,
)
    requires
        held(home(key), key) == Some(bytes),
    ensures
        first_hit(held, key, sources(legacy)) == Some(array_of(bytes)),
{
    lemma_home_comes_first(held, key, legacy, sources(legacy).len() as int);
    assert(sources(legacy).take(sources(legacy).len() as int) =~= sources(legacy));
}

/// What entries say of a key, the last one counting.
pub open spec fn entry_for(entries: Seq<([u8; 32], [u8; 32])>, key: [u8; 32]) -> Option<[u8; 32]>
    decreases entries.len(),
{
    if entries.len() == 0 {
        None
    } else if entries.last().0 == key {
        Some(entries.last().1)
    } else {
        entry_for(entries.drop_last(), key)
    }
}

/// What the stores hold after entries were written, each to the keyspace of its key.
pub open spec fn held_after(
    held: spec_fn(Source, [u8; 32]) -> Option<Seq<u8>>,
    entries: Seq<([u8; 32], [u8; 32])>,
) -> spec_fn(Source, [u8; 32]) -> Option<Seq<u8>> {
    |source: Source, key: [u8; 32]|
        match entry_for(entries, key) {
            Some(print) if source == home(key) => Some(print@),
            _ => held(source, key),
        }
}

proof fn lemma_same_answers(
    a: spec_fn(Source, [u8; 32]) -> Option<Seq<u8>>,
    b: spec_fn(Source, [u8; 32]) -> Option<Seq<u8>>,
    key: [u8; 32],
    asked: Seq<Source>,
)
    requires
        forall|source: Source| #[trigger] a(source, key) == b(source, key),
    ensures
        first_hit(a, key, asked) == first_hit(b, key, asked),
    decreases asked.len(),
{
    if asked.len() > 0 {
        lemma_same_answers(a, b, key, asked.drop_last());
        assert(a(asked.last(), key) == b(asked.last(), key));
    }
}

/// After entries were written, each of their keys is found with what was written,
/// and of every other key the same is found as before.
pub proof fn law_write_changes_what_it_writes(
    held: spec_fn(Source, [u8; 32]) -> Option<Seq<u8>>,
    entries: Seq<([u8; 32], [u8; 32])>,
    key: [u8; 32],
    legacy: bool,
)
    ensures
        first_hit(held_after(held, entries), key, sources(legacy)) == match entry_for(entries, key) {
            Some(print) => Some(print),
            None => first_hit(held, key, sources(legacy)),
        },
{
    let after = held_after(held, entries);
    match entry_for(entries, key) {
        Some(print) => {
            law_written_key_is_found(after, key, print@, legacy);
            lemma_array_of(print);
        },
        None => {
            lemma_same_answers(after, held, key, sources(legacy));
        },
    }
}

/// What entries with different keys say of the key of one of them is what that one
/// says.
pub proof fn law_entries_speak_for_themselves(entries: Seq<([u8; 32], [u8; 32])>, i: int)
    requires
        0 <= i < entries.len(),
        forall|a: int, b: int|
            0 <= a < b < entries.len() ==> (#[trigger] entries[a]).0 != (#[trigger] entries[b]).0,
    ensures
        entry_for(entries, entries[i].0) == Some(entries[i].1),
    decreases entries.len(),
{
    let last = entries.len() - 1;
    if i < last {
        assert(entries[i].0 != entries[last].0);
        let front = entries.drop_last();
        assert forall|a: int, b: int| 0 <= a < b < front.len() implies (#[trigger] front[a]).0 != (
        #[trigger] front[b]).0 by {
            assert(entries[a].0 != entries[b].0);
        }
        law_entries_speak_for_themselves(front, i);
        assert(front[i] == entries[i]);
    }
}

// ---------------------------------------------------------------- the filter
/// Whether a filter may hold every key that the stores hold.
pub open spec fn covers(
    bloom: Seq<u8>,
    held: spec_fn(Source, [u8; 32]) -> Option<Seq<u8>>,
    legacy: bool,
) -> bool {
    forall|key: [u8; 32]| #[trigger]
        first_hit(held, key, sources(legacy)) is Some ==> may_hold(bloom, key)
}

/// The keys of entries.
pub open spec fn entry_keys(entries: Seq<([u8; 32], [u8; 32])>) -> Seq<[u8; 32]> {
    entries.map_values(|entry: ([u8; 32], [u8; 32])| entry.0)
}

proof fn lemma_entry_has_key(entries: Seq<([u8; 32], [u8; 32])>, key: [u8; 32])
    requires
        entry_for(entries, key) is Some,
    ensures
        entry_keys(entries).contains(key),
    decreases entries.len(),
{
    let last = entries.len() - 1;
    if entries[last].0 == key {
        assert(entry_keys(entries)[last] == key);
    } else {
        let front = entries.drop_last();
        lemma_entry_has_key(front, key);
        let i = choose|i: int| 0 <= i < entry_keys(front).len() && entry_keys(front)[i] == key;
        assert(entry_keys(entries)[i] == key);
    }
}

/// Nothing held is covered by any filter: a filter that starts with new stores is
/// ready at once.
pub proof fn law_new_stores_are_covered(
    bloom: Seq<u8>,
    held: spec_fn(Source, [u8; 32]) -> Option<Seq<u8>>,
    legacy: bool,
)
    requires
        forall|source: Source, key: [u8; 32]| #[trigger] held(source, key) is None,
    ensures
        covers(bloom, held, legacy),
{
    assert forall|key: [u8; 32]| #[trigger] first_hit(held, key, sources(legacy)) is Some implies may_hold(
        bloom,
        key,
    ) by {
        lemma_nothing_held(held, key, sources(legacy));
    }
}

proof fn lemma_nothing_held(
    held: spec_fn(Source, [u8; 32]) -> Option<Seq<u8>>,
    key: [u8; 32],
    asked: Seq<Source>,
)
    requires
        forall|source: Source, key: [u8; 32]| #[trigger] held(source, key) is None,
    ensures
        first_hit(held, key, asked) is None,
    decreases asked.len(),
{
    if asked.len() > 0 {
        lemma_nothing_held(held, key, asked.drop_last());
        assert(held(asked.last(), key) is None);
    }
}

/// A filter that covers the stores covers them after a write whose keys were noted.
pub proof fn law_write_keeps_the_filter(
    filters: Seq<Seq<u8>>,
    held: spec_fn(Source, [u8; 32]) -> Option<Seq<u8>>,
    entries: Seq<([u8; 32], [u8; 32])>,
    legacy: bool,
)
    requires
        notes(filters, entry_keys(entries)),
        covers(filters[0], held, legacy),
    ensures
        covers(filters.last(), held_after(held, entries), legacy),
{
    assert forall|key: [u8; 32]| #[trigger]
        first_hit(held_after(held, entries), key, sources(legacy)) is Some implies may_hold(
        filters.last(),
        key,
    ) by {
        law_write_changes_what_it_writes(held, entries, key, legacy);
        if entry_for(entries, key) is Some {
            lemma_entry_has_key(entries, key);
        } else {
            assert(first_hit(held, key, sources(legacy)) is Some);
        }
        law_every_noted_key_may_be_present(filters, entry_keys(entries), key);
    }
}

/// A filter that was rebuilt from the stores, and then merged into the one that
/// noted what was written meanwhile, covers the stores.
pub proof fn law_merged_filter_covers_the_stores(
    rebuilt: Seq<u8>,
    filters: Seq<Seq<u8>>,
    held: spec_fn(Source, [u8; 32]) -> Option<Seq<u8>>,
    entries: Seq<([u8; 32], [u8; 32])>,
    legacy: bool,
)
    requires
        covers(rebuilt, held, legacy),
        notes(filters, entry_keys(entries)),
        rebuilt.len() == filters.last().len(),
        filters.last().len() > 0,
    ensures
        covers(merged(filters.last(), rebuilt), held_after(held, entries), legacy),
{
    let both = merged(filters.last(), rebuilt);
    assert forall|key: [u8; 32]| #[trigger]
        first_hit(held_after(held, entries), key, sources(legacy)) is Some implies may_hold(
        both,
        key,
    ) by {
        law_write_changes_what_it_writes(held, entries, key, legacy);
        if entry_for(entries, key) is Some {
            lemma_entry_has_key(entries, key);
            law_every_noted_key_may_be_present(filters, entry_keys(entries), key);
        } else {
            assert(first_hit(held, key, sources(legacy)) is Some);
        }
        law_merged_filter_keeps_both(filters.last(), rebuilt, key);
    }
}

/// A lookup of any keys, after entries were written, finds of each key what was
/// written, and else what was held before; it does not matter which store holds
/// the key, what other keys are looked up, or whether the filter is ready, as long
/// as a filter that is ready covers the stores.
pub proof fn law_lookup_finds_what_was_written(
    held: spec_fn(Source, [u8; 32]) -> Option<Seq<u8>>,
    entries: Seq<([u8; 32], [u8; 32])>,
    keys: Seq<[u8; 32]>,
    bloom: Seq<u8>,
    ready: bool,
    legacy: bool,
    i: int,
)
    requires
        keys.len() <= usize::MAX,
        0 <= i < keys.len(),
        ready ==> covers(bloom, held_after(held, entries), legacy),
    ensures
        ask_all(
            held_after(held, entries),
            (LookupView {
                keys,
                candidates: Seq::new(keys.len(), |i: int| !ready || may_hold(bloom, keys[i])),
                found: Seq::new(keys.len(), |i: int| None::<[u8; 32]>),
            }),
            sources(legacy),
        ).found[i] == match entry_for(entries, keys[i]) {
            Some(print) => Some(print),
            None => first_hit(held, keys[i], sources(legacy)),
        },
{
    let after = held_after(held, entries);
    assert(ready && first_hit(after, keys[i], sources(legacy)) is Some ==> may_hold(bloom, keys[i]));
    law_filter_hides_nothing(after, keys, bloom, ready, sources(legacy), i);
    law_write_changes_what_it_writes(held, entries, keys[i], legacy);
}

// ---------------------------------------------------------------- where keys stand
proof fn lemma_first_hit_at(
    held: spec_fn(Source, [u8; 32]) -> Option<Seq<u8>>,
    key: [u8; 32],
    asked: Seq<Source>,
    at: int,
)
    requires
        0 <= at <= asked.len(),
        forall|p: int|
            0 <= p < at ==> !answers(#[trigger] asked[p], key) || held(asked[p], key) is None,
        at < asked.len() ==> answers(asked[at], key) && held(asked[at], key) is Some,
    ensures
        first_hit(held, key, asked) == if at < asked.len() {
            Some(array_of(held(asked[at], key)->0))
        } else {
            None
        },
    decreases asked.len(),
{
    if asked.len() > 0 {
        let front = asked.drop_last();
        let here = if at < front.len() {
            at
        } else {
            front.len() as int
        };
        assert forall|p: int| 0 <= p < here implies !answers(#[trigger] front[p], key) || held(
            front[p],
            key,
        ) is None by {
            assert(front[p] == asked[p]);
        }
        lemma_first_hit_at(held, key, front, here);
        assert(asked[asked.len() - 1] == asked.last());
    }
}

/// A key is found wherever it stands: in the keyspace it belongs to, else in the one
/// that all keys were kept in, else, where there are older stores, in the one of them it
/// belonged to, and at last in the oldest; and where it stands nowhere, it is not found.
pub proof fn law_key_is_found_wherever_it_stands(
    held: spec_fn(Source, [u8; 32]) -> Option<Seq<u8>>,
    key: [u8; 32],
    legacy: bool,
)
    ensures
        ({
            let own = held(Source::LsmShard((key@[0] % 64) as usize), key);
            let one = held(Source::Lsm, key);
            let older = held(Source::LegacyShard((key@[0] % 16) as usize), key);
            let oldest = held(Source::Legacy, key);
            let found = first_hit(held, key, sources(legacy));
            let print = |stored: Option<Seq<u8>>| Some(array_of(stored->0));
            &&& own is Some ==> found == print(own)
            &&& own is None && one is Some ==> found == print(one)
            &&& own is None && one is None && legacy && older is Some ==> found == print(older)
            &&& own is None && one is None && legacy && older is None && oldest is Some ==> found
                == print(oldest)
            &&& own is None && one is None && !legacy ==> found is None
            &&& own is None && one is None && older is None && oldest is None ==> found is None
        }),
{
    let asked = sources(legacy);
    let own = (key@[0] % 64) as int;
    let older = (key@[0] % 16) as int;
    assert(asked[own] == Source::LsmShard(own as usize));
    assert(asked[64] == Source::Lsm);
    if legacy {
        assert(asked[65 + older] == Source::LegacyShard(older as usize));
        assert(asked[81] == Source::Legacy);
    }
    let at = if held(Source::LsmShard(own as usize), key) is Some {
        own
    } else if held(Source::Lsm, key) is Some {
        64
    } else if legacy && held(Source::LegacyShard(older as usize), key) is Some {
        65 + older
    } else if legacy && held(Source::Legacy, key) is Some {
        81
    } else {
        asked.len() as int
    };
    assert forall|p: int| 0 <= p < at implies !answers(#[trigger] asked[p], key) || held(
        asked[p],
        key,
    ) is None by {
        if p < 64 {
            assert(asked[p] == Source::LsmShard(p as usize));
        } else if p > 64 && p < 81 {
            assert(asked[p] == Source::LegacyShard((p - 65) as usize));
        }
    }
    lemma_first_hit_at(held, key, asked, at);
}

/// The sources that are asked, in this order: the sixty-four keyspaces, the one that all
/// keys were kept in, and where there are older stores, the sixteen of them and the
/// oldest.
pub proof fn law_newer_sources_are_asked_first(i: int)
    ensures
        sources(false).len() == 65,
        sources(true).len() == 82,
        0 <= i < 65 ==> sources(true)[i] == sources(false)[i],
        0 <= i < 64 ==> sources(false)[i] == Source::LsmShard(i as usize),
        sources(false)[64] == Source::Lsm,
        0 <= i < 16 ==> sources(true)[65 + i] == Source::LegacyShard(i as usize),
        sources(true)[81] == Source::Legacy,
{
}

/// A source is asked for exactly the keys that may be present, are not found yet and
/// belong to it, in their order.
pub proof fn law_only_open_keys_are_asked_for(lookup: LookupView, source: Source, i: int)
    requires
        0 <= i < lookup.keys.len(),
    ensures
        ({
            let asked = open_keys(lookup, source, lookup.keys.len() as int);
            &&& asked.contains(i) <==> lookup.candidates[i] && lookup.found[i] is None && answers(
                source,
                lookup.keys[i],
            )
            &&& forall|p: int, q: int|
                0 <= p < q < asked.len() ==> #[trigger] asked[p] < #[trigger] asked[q]
        }),
{
    let n = lookup.keys.len() as int;
    let asked = open_keys(lookup, source, n);
    lemma_open_keys(lookup, source, n);
    if asked.contains(i) {
        let p = choose|p: int| 0 <= p < asked.len() && asked[p] == i;
        assert(is_open(lookup, source, asked[p]));
    }
    if lookup.candidates[i] && lookup.found[i] is None && answers(source, lookup.keys[i]) {
        assert(is_open(lookup, source, i));
    }
}

/// A keyspace answers for the keys whose first byte leaves its number modulo
/// sixty-four, an older store for those that leave it modulo sixteen, and the two that
/// all keys were kept in for every key.
pub proof fn law_sources_answer_for_their_keys(shard: usize, key: [u8; 32])
    ensures
        answers(Source::LsmShard(shard), key) <==> key@[0] as int % 64 == shard,
        answers(Source::LegacyShard(shard), key) <==> key@[0] as int % 16 == shard,
        answers(Source::Lsm, key),
        answers(Source::Legacy, key),
        home(key) == Source::LsmShard((key@[0] % 64) as usize),
{
}

/// The number in the name of a store is written with at least two digits.
pub proof fn law_names_have_two_digits(n: nat)
    ensures
        crate::text::decimal_value(two_digits(n)) == n,
        two_digits(n).len() >= 2,
        n < 10 ==> two_digits(n) == seq!['0'] + decimal_text(n),
        n >= 10 ==> two_digits(n) == decimal_text(n),
{
    reveal_strlit("0");
    assert("0"@ =~= seq!['0']);
    crate::text::law_decimal_text_is_the_number(n);
    if n < 10 {
        let zero = seq!['0'];
        assert(two_digits(n) =~= zero.push(decimal_text(n)[0]));
        assert(decimal_text(n).len() == 1);
        assert(decimal_text(n) =~= Seq::empty().push(decimal_text(n)[0]));
        assert(zero =~= Seq::empty().push('0'));
        crate::text::law_decimal_digits_count(Seq::empty(), '0');
        crate::text::law_decimal_digits_count(zero, decimal_text(n)[0]);
        crate::text::law_decimal_digits_count(Seq::empty(), decimal_text(n)[0]);
    } else {
        crate::text::law_decimal_text_is_the_number(n / 10);
        assert(decimal_text(n).len() == decimal_text(n / 10).len() + 1);
    }
}

/// The length of the index is the sum of the lengths of its parts.
pub proof fn law_length_is_the_sum_of_the_parts(lens: Seq<u64>, n: int)
    requires
        0 <= n < lens.len(),
    ensures
        total_len(lens, 0) == 0,
        total_len(lens, n + 1) - total_len(lens, n) == lens[n],
{
}

/// Of several entries for a key the last one speaks, and entries for other keys do not.
pub proof fn law_last_entry_speaks(
    entries: Seq<([u8; 32], [u8; 32])>,
    entry: ([u8; 32], [u8; 32]),
    key: [u8; 32],
)
    ensures
        entry_for(Seq::empty(), key) is None,
        entry.0 == key ==> entry_for(entries.push(entry), key) == Some(entry.1),
        entry.0 != key ==> entry_for(entries.push(entry), key) == entry_for(entries, key),
{
    assert(entries.push(entry).drop_last() =~= entries);
}

/// Answers that were read are taken in one by one: each that holds something is found
/// for the key that was asked for, and nothing else changes. They are well sized exactly
/// where each has thirty-two bytes.
pub proof fn law_answers_are_taken_in_one_by_one(
    found: Seq<Option<[u8; 32]>>,
    indices: Seq<usize>,
    values: Seq<Option<Seq<u8>>>,
    read: Seq<Option<Vec<u8>>>,
    i: int,
)
    requires
        values.len() == indices.len(),
        forall|p: int| 0 <= p < indices.len() ==> (#[trigger] indices[p]) < found.len(),
        forall|p: int, q: int|
            0 <= p < q < indices.len() ==> #[trigger] indices[p] < #[trigger] indices[q],
    ensures
        ({
            let after = absorbed(found, indices, values, indices.len() as int);
            &&& after.len() == found.len()
            &&& 0 <= i < indices.len() ==> after[indices[i] as int] == (match values[i] {
                Some(bytes) => Some(array_of(bytes)),
                None => found[indices[i] as int],
            })
            &&& 0 <= i < found.len() && (forall|p: int|
                0 <= p < indices.len() ==> #[trigger] indices[p] != i) ==> after[i] == found[i]
        }),
        well_sized(values) <==> (forall|p: int|
            0 <= p < values.len() ==> ((#[trigger] values[p]) matches Some(bytes) ==> bytes.len()
                == 32)),
        value_views(read).len() == read.len(),
        0 <= i < read.len() ==> (match read[i] {
            Some(bytes) => value_views(read)[i] == Some(bytes@),
            None => value_views(read)[i] is None,
        }),
{
    lemma_absorbed(found, indices, values, indices.len() as int);
    if 0 <= i < indices.len() {
        let at = indices[i];
        assert(0 <= at < found.len());
    }
}

/// Whether the filter can be used from the start.
pub open spec fn starts_ready(index_existed: bool, lsm_existed: bool) -> bool {
    !(index_existed || lsm_existed)
}

/// Whether one of the older stores holds anything.
pub open spec fn any_held(lens: Seq<u64>) -> bool {
    exists|i: int| 0 <= i < lens.len() && #[trigger] lens[i] > 0
}

/// A lookup of keys before any source is asked.
pub open spec fn lookup_of(keys: Seq<[u8; 32]>, bloom: Seq<u8>, ready: bool) -> LookupView {
    LookupView {
        keys,
        candidates: Seq::new(keys.len(), |i: int| !ready || may_hold(bloom, keys[i])),
        found: Seq::new(keys.len(), |i: int| None::<[u8; 32]>),
    }
}

/// The filter can be used from the start only where there is nothing yet that it could
/// have missed; an empty one covers stores that hold nothing.
pub proof fn law_filter_starts_with_empty_stores(
    index_existed: bool,
    lsm_existed: bool,
    bloom: Seq<u8>,
    held: spec_fn(Source, [u8; 32]) -> Option<Seq<u8>>,
)
    requires
        !index_existed && !lsm_existed ==> forall|source: Source, key: [u8; 32]| #[trigger]
            held(source, key) is None,
    ensures
        starts_ready(index_existed, lsm_existed) ==> covers(bloom, held, true) && covers(
            bloom,
            held,
            false,
        ),
        starts_ready(false, false),
        !starts_ready(true, lsm_existed),
        !starts_ready(index_existed, true),
{
    if starts_ready(index_existed, lsm_existed) {
        law_new_stores_are_covered(bloom, held, true);
        law_new_stores_are_covered(bloom, held, false);
    }
}

/// The older stores are asked exactly where they hold a key, all of them together.
pub proof fn law_older_stores_are_asked_while_they_hold_a_key(lens: Seq<u64>)
    ensures
        any_held(lens) <==> total_len(lens, lens.len() as int) > 0,
{
    lemma_any_held(lens, lens.len() as int);
    if any_held(lens) {
        let i = choose|i: int| 0 <= i < lens.len() && #[trigger] lens[i] > 0;
        lemma_total_len_grows(lens, i, i);
        lemma_total_len_grows(lens, i + 1, lens.len() as int);
    }
}

proof fn lemma_any_held(lens: Seq<u64>, n: int)
    requires
        0 <= n <= lens.len(),
    ensures
        total_len(lens, n) > 0 ==> any_held(lens),
        total_len(lens, n) >= 0,
    decreases n,
{
    if n > 0 {
        lemma_any_held(lens, n - 1);
        assert(lens[n - 1] >= 0);
    }
}

/// A lookup finds every key that stands in a source that is asked, and each key for
/// itself: without a filter, or with one that covers the stores, it is found wherever
/// it stands, and no other key is.
pub proof fn law_lookup_of_keys_finds_what_is_held(
    held: spec_fn(Source, [u8; 32]) -> Option<Seq<u8>>,
    keys: Seq<[u8; 32]>,
    bloom: Seq<u8>,
    ready: bool,
    legacy: bool,
    i: int,
)
    requires
        keys.len() <= usize::MAX,
        0 <= i < keys.len(),
        ready ==> covers(bloom, held, legacy),
    ensures
        ask_all(held, lookup_of(keys, bloom, ready), sources(legacy)).found[i] == first_hit(
            held,
            keys[i],
            sources(legacy),
        ),
        lookup_of(keys, bloom, ready).keys == keys,
{
    law_filter_hides_nothing(held, keys, bloom, ready, sources(legacy), i);
}

} // verus!
