//! A hash table over keys that are compared by what they say, whose entries can
//! be walked by position.

use std::collections::HashMap;
use vstd::prelude::*;

verus! {

broadcast use vstd::std_specs::hash::group_hash_axioms;

/// A key of a table.
pub trait TableKey: View + Sized {
    /// The hash code of a key.
    spec fn code_of(key: Self::V) -> u64;

    /// The hash code of this key.
    fn code(&self) -> (code: u64)
        ensures
            code == Self::code_of(self@),
    ;

    /// Whether two keys say the same.
    fn same(&self, other: &Self) -> (result: bool)
        ensures
            result == (self@ == other@),
    ;
}

/// A hash table: the entries in some order, and for each hash code the positions
/// of the entries whose keys have it.
#[verifier::reject_recursive_types(K)]
#[verifier::reject_recursive_types(V)]
pub struct Table<K: TableKey, V: Copy> {
    entries: Vec<(K, V)>,
    index: HashMap<u64, Vec<usize>>,
}

/// Whether the key of an entry says `key`.
pub open spec fn holds_key<K: TableKey, V>(entry: (K, V), key: K::V) -> bool {
    entry.0@ == key
}

/// The map that a row of entries stands for.
pub open spec fn entries_map<K: TableKey, V>(entries: Seq<(K, V)>) -> Map<K::V, V> {
    Map::new(
        |key: K::V| exists|i: int| 0 <= i < entries.len() && holds_key(#[trigger] entries[i], key),
        |key: K::V|
            entries[choose|i: int| 0 <= i < entries.len() && holds_key(#[trigger] entries[i], key)].1,
    )
}

/// Whether no key occurs twice.
pub open spec fn distinct_keys<K: TableKey, V>(entries: Seq<(K, V)>) -> bool {
    forall|i: int, j: int|
        0 <= i < j < entries.len() ==> (#[trigger] entries[i]).0@ != (#[trigger] entries[j]).0@
}

/// An entry stands in the map under its key.
pub proof fn lemma_entry_in_map<K: TableKey, V>(entries: Seq<(K, V)>, i: int)
    requires
        distinct_keys(entries),
        0 <= i < entries.len(),
    ensures
        entries_map(entries).contains_key(entries[i].0@),
        entries_map(entries)[entries[i].0@] == entries[i].1,
{
    let key = entries[i].0@;
    assert(holds_key(entries[i], key));
    let j = choose|j: int| 0 <= j < entries.len() && holds_key(#[trigger] entries[j], key);
    assert(entries[j].0@ == key);
    assert(j == i);
}

/// Every key of the map is the key of an entry.
pub proof fn lemma_map_in_entries<K: TableKey, V>(entries: Seq<(K, V)>, key: K::V) -> (i: int)
    requires
        distinct_keys(entries),
        entries_map(entries).contains_key(key),
    ensures
        0 <= i < entries.len(),
        entries[i].0@ == key,
        entries_map(entries)[key] == entries[i].1,
{
    let i = choose|i: int| 0 <= i < entries.len() && holds_key(#[trigger] entries[i], key);
    lemma_entry_in_map(entries, i);
    i
}

// ---------------------------------------------------------------- buckets
/// Whether a position stands in the bucket of a hash code.
spec fn linked(index: Map<u64, Vec<usize>>, code: u64, position: usize) -> bool {
    index.contains_key(code) && index[code]@.contains(position)
}

/// Whether no bucket holds a position twice.
spec fn buckets_ok(index: Map<u64, Vec<usize>>) -> bool {
    forall|code: u64| #[trigger] index.contains_key(code) ==> index[code]@.no_duplicates()
}

fn link(index: &mut HashMap<u64, Vec<usize>>, code: u64, position: usize)
    requires
        buckets_ok(old(index)@),
        !linked(old(index)@, code, position),
    ensures
        buckets_ok(final(index)@),
        forall|c: u64, i: usize| #[trigger]
            linked(final(index)@, c, i) <==> linked(old(index)@, c, i) || c == code && i == position,
{
    let mut bucket: Vec<usize> = match index.remove(&code) {
        Some(bucket) => bucket,
        None => Vec::new(),
    };
    let ghost before = bucket@;
    bucket.push(position);
    index.insert(code, bucket);
    proof {
        assert(old(index)@.contains_key(code) ==> old(index)@[code]@ == before);
        assert(bucket@[before.len() as int] == position);
        assert forall|i: usize| #[trigger] bucket@.contains(i) <==> before.contains(i) || i
            == position by {
            if before.contains(i) {
                let p = choose|p: int| 0 <= p < before.len() && before[p] == i;
                assert(bucket@[p] == i);
            }
        }
        assert(!before.contains(position));
        assert forall|c: u64, i: usize| #[trigger] linked(index@, c, i) <==> linked(old(index)@, c, i)
            || c == code && i == position by {
            if c != code {
                assert(index@.contains_key(c) == old(index)@.contains_key(c));
            } else {
                assert(linked(index@, c, i) == bucket@.contains(i));
                assert(linked(old(index)@, c, i) == before.contains(i));
            }
        }
        assert forall|c: u64| #[trigger] index@.contains_key(c) implies index@[c]@.no_duplicates() by {
            if c != code {
                assert(old(index)@.contains_key(c));
            }
        }
    }
}

fn unlink(index: &mut HashMap<u64, Vec<usize>>, code: u64, position: usize)
    requires
        buckets_ok(old(index)@),
        linked(old(index)@, code, position),
    ensures
        buckets_ok(final(index)@),
        forall|c: u64, i: usize| #[trigger]
            linked(final(index)@, c, i) <==> linked(old(index)@, c, i) && !(c == code && i == position),
{
    let mut bucket: Vec<usize> = match index.remove(&code) {
        Some(bucket) => bucket,
        None => Vec::new(),
    };
    let ghost before = bucket@;
    assert(before == old(index)@[code]@);
    let mut at: usize = 0;
    let size: usize = bucket.len();
    while bucket[at] != position
        invariant
            at < size,
            size == bucket@.len(),
            bucket@.contains(position),
            forall|p: int| 0 <= p < at ==> bucket@[p] != position,
        decreases bucket@.len() - at,
    {
        proof {
            let p = choose|p: int| 0 <= p < bucket@.len() && bucket@[p] == position;
            assert(p > at);
        }
        at = at + 1;
    }
    let _position: usize = bucket.swap_remove(at);
    let emptied: bool = bucket.len() == 0;
    let ghost after = bucket@;
    if !emptied {
        index.insert(code, bucket);
    }
    proof {
        let last = before.len() - 1;
        assert(after =~= before.update(at as int, before[last]).drop_last());
        assert forall|i: usize| #[trigger] after.contains(i) <==> before.contains(i) && i
            != position by {
            if after.contains(i) {
                let p = choose|p: int| 0 <= p < after.len() && after[p] == i;
                if p == at {
                    assert(before[last] == i);
                } else {
                    assert(before[p] == i);
                }
            }
            if before.contains(i) && i != position {
                let p = choose|p: int| 0 <= p < before.len() && before[p] == i;
                if p == last {
                    assert(after[at as int] == i);
                } else {
                    assert(after[p] == i);
                }
            }
        }
        assert forall|c: u64, i: usize| #[trigger] linked(index@, c, i) <==> linked(old(index)@, c, i)
            && !(c == code && i == position) by {
            if c != code {
                assert(index@.contains_key(c) == old(index)@.contains_key(c));
            } else {
                assert(linked(old(index)@, c, i) == before.contains(i));
                if emptied {
                    assert(!after.contains(i));
                } else {
                    assert(linked(index@, c, i) == after.contains(i));
                }
            }
        }
        assert forall|c: u64| #[trigger] index@.contains_key(c) implies index@[c]@.no_duplicates() by {
            if c != code {
                assert(old(index)@.contains_key(c));
            }
        }
    }
}

// ---------------------------------------------------------------- entries
proof fn lemma_entries_count<K: TableKey, V>(entries: Seq<(K, V)>)
    requires
        distinct_keys(entries),
    ensures
        entries_map(entries).dom().finite(),
        entries_map(entries).len() == entries.len(),
    decreases entries.len(),
{
    let map = entries_map(entries);
    if entries.len() == 0 {
        assert(map.dom() =~= Set::empty());
    } else {
        let front = entries.drop_last();
        assert forall|i: int, j: int| 0 <= i < j < front.len() implies (#[trigger] front[i]).0@ != (
        #[trigger] front[j]).0@ by {
            assert(entries[i].0@ != entries[j].0@);
        }
        lemma_entries_count(front);
        lemma_entries_push(front, entries.last());
        assert(front.push(entries.last()) =~= entries);
    }
}

proof fn lemma_entries_push<K: TableKey, V>(entries: Seq<(K, V)>, entry: (K, V))
    requires
        distinct_keys(entries),
        distinct_keys(entries.push(entry)),
    ensures
        !entries_map(entries).contains_key(entry.0@),
        entries_map(entries.push(entry)) == entries_map(entries).insert(entry.0@, entry.1),
{
    let after = entries.push(entry);
    let old_map = entries_map(entries);
    let new_map = entries_map(after);
    if old_map.contains_key(entry.0@) {
        let i = lemma_map_in_entries(entries, entry.0@);
        assert(after[i].0@ != after[entries.len() as int].0@);
    }
    lemma_entry_in_map(after, entries.len() as int);
    assert forall|key: K::V| #[trigger] new_map.contains_key(key) <==> old_map.contains_key(key) || key
        == entry.0@ by {
        if new_map.contains_key(key) {
            let i = lemma_map_in_entries(after, key);
            if i < entries.len() {
                lemma_entry_in_map(entries, i);
            }
        }
        if old_map.contains_key(key) {
            let i = lemma_map_in_entries(entries, key);
            assert(after[i] == entries[i]);
            lemma_entry_in_map(after, i);
        }
    }
    assert forall|key: K::V| old_map.contains_key(key) implies #[trigger] new_map[key]
        == old_map[key] by {
        let i = lemma_map_in_entries(entries, key);
        assert(after[i] == entries[i]);
        lemma_entry_in_map(after, i);
    }
    assert(new_map =~= old_map.insert(entry.0@, entry.1));
}

proof fn lemma_entries_update<K: TableKey, V>(before: Seq<(K, V)>, at: int, after: Seq<(K, V)>)
    requires
        distinct_keys(before),
        0 <= at < before.len(),
        after.len() == before.len(),
        forall|i: int| 0 <= i < before.len() && i != at ==> after[i] == before[i],
        after[at].0 == before[at].0,
    ensures
        distinct_keys(after),
        entries_map(after) == entries_map(before).insert(before[at].0@, after[at].1),
{
    assert forall|i: int, j: int| 0 <= i < j < after.len() implies (#[trigger] after[i]).0@ != (
    #[trigger] after[j]).0@ by {
        assert(before[i].0@ != before[j].0@);
    }
    let old_map = entries_map(before);
    let new_map = entries_map(after);
    assert forall|key: K::V| #[trigger] new_map.contains_key(key) <==> old_map.contains_key(key) by {
        if new_map.contains_key(key) {
            let i = lemma_map_in_entries(after, key);
            lemma_entry_in_map(before, i);
        }
        if old_map.contains_key(key) {
            let i = lemma_map_in_entries(before, key);
            lemma_entry_in_map(after, i);
        }
    }
    lemma_entry_in_map(before, at);
    lemma_entry_in_map(after, at);
    assert forall|key: K::V| new_map.contains_key(key) && key != before[at].0@ implies #[trigger] new_map[key]
        == old_map[key] by {
        let i = lemma_map_in_entries(after, key);
        lemma_entry_in_map(before, i);
    }
    assert(new_map =~= old_map.insert(before[at].0@, after[at].1));
}

proof fn lemma_entries_swap_remove<K: TableKey, V>(before: Seq<(K, V)>, at: int, after: Seq<(K, V)>)
    requires
        distinct_keys(before),
        0 <= at < before.len(),
        after == before.update(at, before.last()).drop_last(),
    ensures
        distinct_keys(after),
        entries_map(after) == entries_map(before).remove(before[at].0@),
{
    let last = before.len() - 1;
    // The place in `before` of each entry of `after`.
    let origin = |i: int| if i == at { last } else { i };
    assert forall|i: int| 0 <= i < after.len() implies #[trigger] after[i] == before[origin(i)] by {}
    assert forall|i: int, j: int| 0 <= i < j < after.len() implies (#[trigger] after[i]).0@ != (
    #[trigger] after[j]).0@ by {
        let a = origin(i);
        let b = origin(j);
        assert(a != b);
        if a < b {
            assert(before[a].0@ != before[b].0@);
        } else {
            assert(before[b].0@ != before[a].0@);
        }
    }
    let old_map = entries_map(before);
    let new_map = entries_map(after);
    let key_out = before[at].0@;
    assert forall|key: K::V| #[trigger] new_map.contains_key(key) <==> old_map.contains_key(key) && key
        != key_out by {
        if new_map.contains_key(key) {
            let i = lemma_map_in_entries(after, key);
            let a = origin(i);
            lemma_entry_in_map(before, a);
            assert(a != at);
            if a < at {
                assert(before[a].0@ != before[at].0@);
            } else {
                assert(before[at].0@ != before[a].0@);
            }
        }
        if old_map.contains_key(key) && key != key_out {
            let i = lemma_map_in_entries(before, key);
            let b = if i == last {
                at
            } else {
                i
            };
            assert(after[b] == before[i]);
            lemma_entry_in_map(after, b);
        }
    }
    assert forall|key: K::V| new_map.contains_key(key) implies #[trigger] new_map[key]
        == old_map[key] by {
        let i = lemma_map_in_entries(after, key);
        lemma_entry_in_map(before, origin(i));
    }
    assert(new_map =~= old_map.remove(key_out));
}

impl<K: TableKey, V: Copy> View for Table<K, V> {
    type V = Map<K::V, V>;

    closed spec fn view(&self) -> Map<K::V, V> {
        entries_map(self.entries@)
    }
}

impl<K: TableKey, V: Copy> Table<K, V> {
    /// The entries, in the order of their positions.
    pub closed spec fn entries(&self) -> Seq<(K, V)> {
        self.entries@
    }

    spec fn index_ok(entries: Seq<(K, V)>, index: Map<u64, Vec<usize>>) -> bool {
        &&& buckets_ok(index)
        &&& forall|code: u64, i: usize| #[trigger]
            linked(index, code, i) <==> i < entries.len() && K::code_of(entries[i as int].0@) == code
    }

    pub closed spec fn wf(&self) -> bool {
        &&& distinct_keys(self.entries@)
        &&& Self::index_ok(self.entries@, self.index@)
    }

    /// What a well-formed table holds, seen by position.
    pub proof fn lemma_entries(&self)
        requires
            self.wf(),
        ensures
            distinct_keys(self.entries()),
            self@ == entries_map(self.entries()),
            self@.dom().finite(),
            self@.len() == self.entries().len(),
    {
        lemma_entries_count(self.entries@);
    }

    pub fn new() -> (table: Self)
        ensures
            table.wf(),
            table@ == Map::<K::V, V>::empty(),
    {
        let table: Self = Table { entries: Vec::new(), index: HashMap::new() };
        assert(table@ =~= Map::<K::V, V>::empty());
        table
    }

    /// The number of entries.
    pub fn len(&self) -> (len: usize)
        requires
            self.wf(),
        ensures
            len == self@.len(),
            len == self.entries().len(),
    {
        proof {
            self.lemma_entries();
        }
        self.entries.len()
    }

    /// The entry at a position.
    pub fn at(&self, position: usize) -> (entry: (&K, V))
        requires
            self.wf(),
            position < self.entries().len(),
        ensures
            *entry.0 == self.entries()[position as int].0,
            entry.1 == self.entries()[position as int].1,
    {
        (&self.entries[position].0, self.entries[position].1)
    }

    fn find(&self, key: &K) -> (position: Option<usize>)
        requires
            self.wf(),
        ensures
            match position {
                Some(i) => i < self.entries@.len() && self.entries@[i as int].0@ == key@
                    && self@.contains_key(key@) && self@[key@] == self.entries@[i as int].1,
                None => !self@.contains_key(key@),
            },
    {
        let code: u64 = key.code();
        let count: usize = self.entries.len();
        match self.index.get(&code) {
            None => {
                proof {
                    if self@.contains_key(key@) {
                        let i = lemma_map_in_entries(self.entries@, key@);
                        assert(i < count);
                        assert(linked(self.index@, code, i as usize));
                    }
                }
                None
            },
            Some(bucket) => {
                let mut at: usize = 0;
                while at < bucket.len()
                    invariant
                        at <= bucket@.len(),
                        self.wf(),
                        code == K::code_of(key@),
                        self.index@.contains_key(code),
                        self.index@[code] == *bucket,
                        forall|p: int|
                            0 <= p < at ==> self.entries@[(#[trigger] bucket@[p]) as int].0@
                                != key@,
                    decreases bucket@.len() - at,
                {
                    let position: usize = bucket[at];
                    assert(bucket@.contains(position));
                    assert(linked(self.index@, code, position));
                    if self.entries[position].0.same(key) {
                        proof {
                            lemma_entry_in_map(self.entries@, position as int);
                        }
                        return Some(position);
                    }
                    at = at + 1;
                }
                proof {
                    if self@.contains_key(key@) {
                        let i = lemma_map_in_entries(self.entries@, key@);
                        assert(i < count);
                        assert(linked(self.index@, code, i as usize));
                        let p = choose|p: int|
                            0 <= p < bucket@.len() && bucket@[p] == i as usize;
                        assert(self.entries@[bucket@[p] as int].0@ != key@);
                    }
                }
                None
            },
        }
    }

    /// The value under a key.
    pub fn get(&self, key: &K) -> (value: Option<V>)
        requires
            self.wf(),
        ensures
            value == self@.get(key@),
    {
        match self.find(key) {
            Some(position) => Some(self.entries[position].1),
            None => None,
        }
    }

    /// Puts a value under a key, in place of the one that may be there.
    pub fn insert(&mut self, key: K, value: V)
        requires
            old(self).wf(),
        ensures
            final(self).wf(),
            final(self)@ == old(self)@.insert(key@, value),
    {
        match self.find(&key) {
            Some(position) => {
                let ghost before = self.entries@;
                self.entries[position].1 = value;
                proof {
                    lemma_entries_update(before, position as int, self.entries@);
                }
            },
            None => {
                let code: u64 = key.code();
                let position: usize = self.entries.len();
                let ghost before = self.entries@;
                link(&mut self.index, code, position);
                self.entries.push((key, value));
                proof {
                    assert forall|i: int, j: int| 0 <= i < j < self.entries@.len() implies (
                    #[trigger] self.entries@[i]).0@ != (#[trigger] self.entries@[j]).0@ by {
                        if j == before.len() {
                            lemma_entry_in_map(before, i);
                        }
                    }
                    lemma_entries_push(before, (key, value));
                }
            },
        }
    }

    /// Takes the value under a key out of the table.
    pub fn remove(&mut self, key: &K) -> (value: Option<V>)
        requires
            old(self).wf(),
        ensures
            final(self).wf(),
            value == old(self)@.get(key@),
            final(self)@ == old(self)@.remove(key@),
    {
        let position: usize = match self.find(key) {
            Some(position) => position,
            None => {
                assert(self@ =~= old(self)@.remove(key@));
                return None;
            },
        };
        let last: usize = self.entries.len() - 1;
        let value: V = self.entries[position].1;
        let ghost before = self.entries@;
        let last_code: u64 = self.entries[last].0.code();
        let code: u64 = key.code();
        assert(linked(self.index@, code, position));
        assert(linked(self.index@, last_code, last));
        unlink(&mut self.index, code, position);
        if position != last {
            unlink(&mut self.index, last_code, last);
            link(&mut self.index, last_code, position);
        }
        let _gone: (K, V) = self.entries.swap_remove(position);
        proof {
            lemma_entries_swap_remove(before, position as int, self.entries@);
        }
        Some(value)
    }
}

} // verus!
