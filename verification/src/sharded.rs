//! A map that is split over a fixed number of tables, each key in the table that
//! the key itself picks.

use vstd::prelude::*;

use crate::table::{distinct_keys, lemma_entry_in_map, lemma_map_in_entries, Table, TableKey};

verus! {

/// A key that picks its own shard.
pub trait ShardKey: TableKey {
    /// The shard, out of `count`, that a key belongs to.
    spec fn shard_of(key: Self::V, count: usize) -> int;

    /// Every key has a shard.
    proof fn lemma_shard_of(key: Self::V, count: usize)
        requires
            count > 0,
        ensures
            0 <= Self::shard_of(key, count) < count,
    ;

    /// The shard, out of `count`, that this key belongs to.
    fn shard(&self, count: usize) -> (shard: usize)
        requires
            count > 0,
        ensures
            shard == Self::shard_of(self@, count),
            shard < count,
    ;
}

// ---------------------------------------------------------------- counting
/// How many of the first `n` entries have a value with the property `f`.
pub open spec fn count_entries<K: TableKey, V>(
    entries: Seq<(K, V)>,
    f: spec_fn(V) -> bool,
    n: int,
) -> nat
    decreases n,
{
    if n <= 0 {
        0
    } else {
        count_entries(entries, f, n - 1) + if f(entries[n - 1].1) {
            1nat
        } else {
            0nat
        }
    }
}

/// The keys of those of the first `n` entries whose value has the property `f`.
pub open spec fn entry_keys<K: TableKey, V>(
    entries: Seq<(K, V)>,
    f: spec_fn(V) -> bool,
    n: int,
) -> Set<K::V>
    decreases n,
{
    if n <= 0 {
        Set::empty()
    } else if f(entries[n - 1].1) {
        entry_keys(entries, f, n - 1).insert(entries[n - 1].0@)
    } else {
        entry_keys(entries, f, n - 1)
    }
}

proof fn lemma_entry_keys<K: TableKey, V>(entries: Seq<(K, V)>, f: spec_fn(V) -> bool, n: int)
    requires
        distinct_keys(entries),
        0 <= n <= entries.len(),
    ensures
        entry_keys(entries, f, n).finite(),
        entry_keys(entries, f, n).len() == count_entries(entries, f, n),
        forall|key: K::V| #[trigger]
            entry_keys(entries, f, n).contains(key) ==> exists|i: int|
                0 <= i < n && (#[trigger] entries[i]).0@ == key && f(entries[i].1),
        forall|i: int|
            0 <= i < n && f((#[trigger] entries[i]).1) ==> entry_keys(entries, f, n).contains(
                entries[i].0@,
            ),
    decreases n,
{
    if n > 0 {
        lemma_entry_keys(entries, f, n - 1);
        let key = entries[n - 1].0@;
        if entry_keys(entries, f, n - 1).contains(key) {
            let i = choose|i: int|
                0 <= i < n - 1 && (#[trigger] entries[i]).0@ == key && f(entries[i].1);
            assert(entries[i].0@ != entries[n - 1].0@);
        }
    }
}

proof fn lemma_count_all<K: TableKey, V>(entries: Seq<(K, V)>, f: spec_fn(V) -> bool, n: int)
    requires
        0 <= n,
        forall|value: V| #[trigger] f(value),
    ensures
        count_entries(entries, f, n) == n,
    decreases n,
{
    if n > 0 {
        lemma_count_all(entries, f, n - 1);
    }
}

/// A map over a fixed number of shards.
#[verifier::reject_recursive_types(K)]
#[verifier::reject_recursive_types(V)]
pub struct Sharded<K: ShardKey, V: Copy> {
    shards: Vec<Table<K, V>>,
}

impl<K: ShardKey, V: Copy> View for Sharded<K, V> {
    type V = Map<K::V, V>;

    closed spec fn view(&self) -> Map<K::V, V> {
        Map::new(
            |key: K::V|
                self.shards@[K::shard_of(key, self.shards.len())]@.contains_key(key),
            |key: K::V| self.shards@[K::shard_of(key, self.shards.len())]@[key],
        )
    }
}

impl<K: ShardKey, V: Copy> Sharded<K, V> {
    /// Every shard is well-formed and holds only keys that belong to it.
    pub closed spec fn wf(&self) -> bool {
        &&& self.shards@.len() > 0
        &&& forall|i: int| 0 <= i < self.shards@.len() ==> (#[trigger] self.shards@[i]).wf()
        &&& forall|i: int, key: K::V|
            0 <= i < self.shards@.len() && #[trigger] self.shards@[i]@.contains_key(key)
                ==> K::shard_of(key, self.shards.len()) == i
    }

    /// The number of shards.
    pub closed spec fn shards(&self) -> usize {
        self.shards.len()
    }

    /// What one shard holds.
    pub closed spec fn part(&self, shard: int) -> Table<K, V> {
        self.shards@[shard]
    }

    /// What a well-formed map holds, seen by shard.
    pub proof fn lemma_parts(&self)
        requires
            self.wf(),
        ensures
            self.shards() > 0,
            forall|i: int| 0 <= i < self.shards() ==> (#[trigger] self.part(i)).wf(),
            forall|i: int, key: K::V|
                0 <= i < self.shards() && #[trigger] self.part(i)@.contains_key(key)
                    ==> K::shard_of(key, self.shards()) == i && self@.contains_key(key)
                    && self@[key] == self.part(i)@[key],
            forall|key: K::V| #[trigger]
                self@.contains_key(key) ==> 0 <= K::shard_of(key, self.shards()) < self.shards()
                    && self.part(K::shard_of(key, self.shards()))@.contains_key(key),
    {
        assert forall|key: K::V| #[trigger] self@.contains_key(key) implies 0 <= K::shard_of(
            key,
            self.shards(),
        ) < self.shards() && self.part(K::shard_of(key, self.shards()))@.contains_key(key) by {
            K::lemma_shard_of(key, self.shards());
        }
    }

    /// The keys whose value has the property `f`.
    pub open spec fn keys_where(&self, f: spec_fn(V) -> bool) -> Set<K::V> {
        self@.dom().filter(|key: K::V| f(self@[key]))
    }

    /// How many values of the first `n` shards have the property `f`.
    pub open spec fn count_parts(&self, f: spec_fn(V) -> bool, n: int) -> nat
        decreases n,
    {
        if n <= 0 {
            0
        } else {
            self.count_parts(f, n - 1) + count_entries(
                self.part(n - 1).entries(),
                f,
                self.part(n - 1).entries().len() as int,
            )
        }
    }

    spec fn keys_below(&self, f: spec_fn(V) -> bool, n: int) -> Set<K::V> {
        self.keys_where(f).filter(|key: K::V| K::shard_of(key, self.shards()) < n)
    }

    proof fn lemma_keys_below(&self, f: spec_fn(V) -> bool, n: int)
        requires
            self.wf(),
            0 <= n <= self.shards(),
        ensures
            self.keys_below(f, n).finite(),
            self.keys_below(f, n).len() == self.count_parts(f, n),
        decreases n,
    {
        self.lemma_parts();
        if n == 0 {
            assert(self.keys_below(f, n) =~= Set::empty());
        } else {
            self.lemma_keys_below(f, n - 1);
            let table = self.part(n - 1);
            let entries = table.entries();
            assert(table.wf());
            table.lemma_entries();
            lemma_entry_keys(entries, f, entries.len() as int);
            let here = entry_keys(entries, f, entries.len() as int);
            let before = self.keys_below(f, n - 1);
            assert forall|key: K::V| here.contains(key) implies table@.contains_key(key) && f(
                self@[key],
            ) by {
                let i = choose|i: int|
                    0 <= i < entries.len() && (#[trigger] entries[i]).0@ == key && f(entries[i].1);
                lemma_entry_in_map(entries, i);
                assert(self.part(n - 1)@.contains_key(key));
            }
            assert forall|key: K::V| table@.contains_key(key) && f(self@[key]) implies here.contains(
                key,
            ) by {
                assert(self.part(n - 1)@.contains_key(key));
                let i = lemma_map_in_entries(entries, key);
                assert(f(entries[i].1));
            }
            assert forall|key: K::V| #[trigger] self.keys_below(f, n).contains(key) <==> before.contains(
                key,
            ) || here.contains(key) by {
                if here.contains(key) {
                    assert(self.part(n - 1)@.contains_key(key));
                }
                if self.keys_below(f, n).contains(key) && !before.contains(key) {
                    assert(self@.contains_key(key));
                }
            }
            assert(before.disjoint(here)) by {
                assert forall|key: K::V| !(#[trigger] before.contains(key) && here.contains(key)) by {
                    if here.contains(key) {
                        assert(self.part(n - 1)@.contains_key(key));
                    }
                }
            }
            assert(self.keys_below(f, n) =~= before + here);
            vstd::set_lib::lemma_set_disjoint_lens(before, here);
        }
    }

    /// Counting shard by shard counts every key once.
    pub proof fn lemma_count_parts(&self, f: spec_fn(V) -> bool)
        requires
            self.wf(),
        ensures
            self.keys_where(f).finite(),
            self.keys_where(f).len() == self.count_parts(f, self.shards() as int),
    {
        self.lemma_parts();
        self.lemma_keys_below(f, self.shards() as int);
        assert forall|key: K::V| #[trigger] self.keys_where(f).contains(key) implies self.keys_below(
            f,
            self.shards() as int,
        ).contains(key) by {
            assert(self@.contains_key(key));
        }
        assert(self.keys_below(f, self.shards() as int) =~= self.keys_where(f));
    }

    /// An empty map over `count` shards.
    pub fn new(count: usize) -> (map: Self)
        requires
            count > 0,
        ensures
            map.wf(),
            map.shards() == count,
            map@ == Map::<K::V, V>::empty(),
    {
        let mut shards: Vec<Table<K, V>> = Vec::new();
        while shards.len() < count
            invariant
                shards@.len() <= count,
                forall|i: int| 0 <= i < shards@.len() ==> (#[trigger] shards@[i]).wf(),
                forall|i: int|
                    0 <= i < shards@.len() ==> (#[trigger] shards@[i])@ == Map::<K::V, V>::empty(),
            decreases count - shards@.len(),
        {
            shards.push(Table::new());
        }
        let map: Self = Sharded { shards };
        proof {
            assert forall|key: K::V| !#[trigger] map@.contains_key(key) by {
                K::lemma_shard_of(key, count);
            }
            assert(map@ =~= Map::<K::V, V>::empty());
        }
        map
    }

    /// The number of shards.
    pub fn count(&self) -> (count: usize)
        ensures
            count == self.shards(),
    {
        self.shards.len()
    }

    /// The number of entries, as far as it can be said.
    pub fn len(&self) -> (len: usize)
        requires
            self.wf(),
        ensures
            len == if self@.dom().len() <= usize::MAX {
                self@.dom().len() as int
            } else {
                usize::MAX as int
            },
    {
        let ghost f = |value: V| true;
        let mut len: usize = 0;
        let mut shard: usize = 0;
        while shard < self.shards.len()
            invariant
                shard <= self.shards(),
                self.shards() == self.shards@.len(),
                self.wf(),
                f == (|value: V| true),
                len == if self.count_parts(f, shard as int) <= usize::MAX {
                    self.count_parts(f, shard as int) as int
                } else {
                    usize::MAX as int
                },
            decreases self.shards@.len() - shard,
        {
            proof {
                let entries = self.part(shard as int).entries();
                lemma_count_all(entries, f, entries.len() as int);
            }
            len = len.saturating_add(self.shards[shard].len());
            shard = shard + 1;
        }
        proof {
            self.lemma_count_parts(f);
            assert(self.keys_where(f) =~= self@.dom());
        }
        len
    }

    /// One shard.
    pub fn table(&self, shard: usize) -> (table: &Table<K, V>)
        requires
            self.wf(),
            shard < self.shards(),
        ensures
            *table == self.part(shard as int),
            table.wf(),
    {
        &self.shards[shard]
    }

    /// The value under a key.
    pub fn get(&self, key: &K) -> (value: Option<V>)
        requires
            self.wf(),
        ensures
            value == self@.get(key@),
    {
        let shard: usize = key.shard(self.shards.len());
        self.shards[shard].get(key)
    }

    /// Puts a value under a key, in place of the one that stood there.
    pub fn insert(&mut self, key: K, value: V)
        requires
            old(self).wf(),
        ensures
            final(self).wf(),
            final(self).shards() == old(self).shards(),
            final(self)@ == old(self)@.insert(key@, value),
    {
        let shard: usize = key.shard(self.shards.len());
        self.shards[shard].insert(key, value);
        proof {
            self.lemma_changed(old(self), shard as int, key@);
            assert(self@ =~= old(self)@.insert(key@, value));
        }
    }

    /// Takes the value under a key out of the map.
    pub fn remove(&mut self, key: &K) -> (value: Option<V>)
        requires
            old(self).wf(),
        ensures
            final(self).wf(),
            final(self).shards() == old(self).shards(),
            value == old(self)@.get(key@),
            final(self)@ == old(self)@.remove(key@),
    {
        let shard: usize = key.shard(self.shards.len());
        let value: Option<V> = self.shards[shard].remove(key);
        proof {
            self.lemma_changed(old(self), shard as int, key@);
            assert(self@ =~= old(self)@.remove(key@));
        }
        value
    }

    proof fn lemma_changed(&self, before: &Self, shard: int, key: K::V)
        requires
            before.wf(),
            0 <= shard < before.shards@.len(),
            shard == K::shard_of(key, before.shards.len()),
            self.shards@ == before.shards@.update(shard, self.shards@[shard]),
            self.shards@[shard].wf(),
            forall|k: K::V|
                k != key ==> (#[trigger] self.shards@[shard]@.contains_key(k)
                    == before.shards@[shard]@.contains_key(k)),
            forall|k: K::V|
                k != key && #[trigger] self.shards@[shard]@.contains_key(k)
                    ==> self.shards@[shard]@[k] == before.shards@[shard]@[k],
        ensures
            self.wf(),
            self.shards() == before.shards(),
            forall|k: K::V| k != key ==> (#[trigger] self@.contains_key(k) == before@.contains_key(k)),
            forall|k: K::V| k != key && #[trigger] self@.contains_key(k) ==> self@[k] == before@[k],
            self@.contains_key(key) == self.shards@[shard]@.contains_key(key),
            self@.contains_key(key) ==> self@[key] == self.shards@[shard]@[key],
    {
        assert(self.shards.len() == self.shards@.len());
        assert(before.shards.len() == before.shards@.len());
        assert forall|i: int, k: K::V|
            0 <= i < self.shards@.len() && #[trigger] self.shards@[i]@.contains_key(k) implies K::shard_of(
            k,
            self.shards.len(),
        ) == i by {
            if i == shard {
                if k != key {
                    assert(before.shards@[i]@.contains_key(k));
                }
            } else {
                assert(before.shards@[i]@.contains_key(k));
            }
        }
        assert forall|k: K::V| k != key implies (#[trigger] self@.contains_key(k)
            == before@.contains_key(k)) by {
            K::lemma_shard_of(k, before.shards.len());
        }
        assert forall|k: K::V| k != key && #[trigger] self@.contains_key(k) implies self@[k]
            == before@[k] by {
            K::lemma_shard_of(k, before.shards.len());
        }
    }
}

} // verus!
