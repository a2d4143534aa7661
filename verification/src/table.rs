//! The hash table: a vector of slots, each key kept in the slot that its
//! hash selects, with no probing past a slot that is taken.

use vstd::prelude::*;
use vstd::std_specs::cmp::PartialEqSpec;
use crate::bucket::Bucket;
use crate::hashable::Hashable;
use crate::laws::{lemma_inserted_counted, lemma_listed_len, lemma_removed_counted};
use crate::model::{
    collision_free, compares, grown, home, lemma_count_empty, lemma_count_update,
    lemma_rehash_keeps_count, lemma_rehashed, listed, overloaded, rehashed, Slot, Table,
    DOUBLING_LIMIT, INITIAL_CAPACITY, LOAD_FACTOR_DENOMINATOR, LOAD_FACTOR_NUMERATOR,
};

verus! {

/// A table from keys to values. A key lives in the slot whose index is its
/// hash modulo the capacity; a second key with the same slot takes the
/// place of the first.
pub struct HashTable<K, V> {
    table: Vec<Bucket<K, V>>,
    len: usize,
}

/// What the slots of a vector of buckets hold.
pub open spec fn slots_of<K, V>(buckets: Seq<Bucket<K, V>>) -> Seq<Slot<K, V>> {
    buckets.map_values(|bucket: Bucket<K, V>| bucket@)
}

impl<K, V> View for HashTable<K, V> {
    type V = Table<K, V>;

    /// The contents of the table.
    closed spec fn view(&self) -> Table<K, V> {
        Table { slots: slots_of(self.table@), size: self.len as nat }
    }
}

/// Whether `size` entries in `capacity` slots exceed the load factor.
pub fn is_overloaded(size: usize, capacity: usize) -> (r: bool)
    ensures
        r == overloaded(size as nat, capacity as nat),
{
    (size as u128) * (LOAD_FACTOR_DENOMINATOR as u128) > (capacity as u128) * (
    LOAD_FACTOR_NUMERATOR as u128)
}

/// The capacity that follows `capacity`, or `None` where it exceeds
/// `usize::MAX`.
pub fn grown_capacity(capacity: usize) -> (r: Option<usize>)
    ensures
        grown(capacity as nat) <= usize::MAX ==> r == Some(grown(capacity as nat) as usize),
        grown(capacity as nat) > usize::MAX ==> r is None,
{
    if capacity < DOUBLING_LIMIT {
        Some(capacity * 2)
    } else {
        let wide: u128 = (capacity as u128) * 8 / 5;
        if wide <= usize::MAX as u128 {
            Some(wide as usize)
        } else {
            None
        }
    }
}

/// A vector of `n` empty slots.
fn empty_buckets<K: Default, V: Default>(n: usize) -> (buckets: Vec<Bucket<K, V>>)
    ensures
        buckets@.len() == n,
        slots_of(buckets@) == Seq::<Slot<K, V>>::new(n as nat, |i: int| None),
{
    let mut buckets: Vec<Bucket<K, V>> = Vec::new();
    let mut i: usize = 0;
    while i < n
        invariant
            i <= n,
            buckets@.len() == i,
            forall|j: int| 0 <= j < i ==> (#[trigger] buckets@[j])@ is None,
        decreases n - i,
    {
        buckets.push(Bucket::new());
        i += 1;
    }
    assert(slots_of(buckets@) =~= Seq::<Slot<K, V>>::new(n as nat, |i: int| None));
    buckets
}

impl<K: Hashable + Eq + Default, V: Clone + Default> HashTable<K, V> {
    /// Whether the table is in a state that its operations leave it in.
    pub open spec fn wf(&self) -> bool {
        self@.wf()
    }

    /// A table of 127 empty slots.
    pub fn new() -> (t: Self)
        ensures
            t.wf(),
            t@ == Table::<K, V>::empty(INITIAL_CAPACITY as nat),
            t@.counted(),
    {
        let table = empty_buckets(INITIAL_CAPACITY);
        proof {
            lemma_count_empty::<K, V>(INITIAL_CAPACITY as nat);
        }
        HashTable { table, len: 0 }
    }

    /// The count of entries.
    pub fn len(&self) -> (n: usize)
        ensures
            n == self@.size,
    {
        self.len
    }

    /// The number of slots.
    pub fn capacity(&self) -> (n: usize)
        ensures
            n == self@.capacity(),
    {
        self.table.len()
    }

    /// The index of the slot that belongs to `key`.
    pub fn hash(&self, key: &K) -> (index: usize)
        requires
            self@.capacity() > 0,
        ensures
            index == home(*key, self@.capacity()),
            index < self@.capacity(),
    {
        key.hash() % self.table.len()
    }

    /// Stores `value` under `key` in the slot of `key`, in place of the
    /// pair that the slot held, whatever its key. Where this fills an empty
    /// slot, the count rises, and the table grows if the count then exceeds
    /// three quarters of the capacity.
    pub fn insert(&mut self, key: K, value: V)
        requires
            old(self).wf(),
            old(self)@.grows_on(key) ==> grown(old(self)@.capacity()) <= usize::MAX,
        ensures
            final(self).wf(),
            final(self)@ == old(self)@.inserted(key, value),
            final(self)@.capacity() >= old(self)@.capacity(),
            old(self)@.counted() && old(self)@.insert_keeps_all(key, value)
                ==> final(self)@.counted(),
    {
        let index = self.hash(&key);
        let ghost before = self@;
        let was_occupied = self.table[index].occupied;
        assert(before.capacity() == self.table.len());
        self.table[index] = Bucket { key, value, occupied: true };
        proof {
            lemma_count_update(before.slots, index as int, Some((key, value)));
            assert(slots_of(self.table@) =~= before.slots.update(index as int, Some((key, value))));
        }
        if !was_occupied {
            self.len = self.len + 1;
            assert(self@ =~= before.put(key, value));
            if is_overloaded(self.len, self.table.len()) {
                self.resize();
            }
        } else {
            assert(self@ =~= before.put(key, value));
        }
        proof {
            if before.counted() && before.insert_keeps_all(key, value) {
                lemma_inserted_counted(before, key, value);
            }
        }
    }

    /// Grows the table to the next capacity and places every pair anew, by
    /// ascending slot index, in the slot that its key has under that
    /// capacity. Of the pairs that then share a slot the last one stays;
    /// the count is left as it is.
    pub fn resize(&mut self)
        requires
            old(self)@.sound(),
            grown(old(self)@.capacity()) <= usize::MAX,
        ensures
            final(self)@.sound(),
            final(self)@ == old(self)@.regrown(),
            final(self)@.capacity() == grown(old(self)@.capacity()),
            old(self).wf() ==> final(self).wf(),
            old(self)@.counted() && collision_free(
                old(self)@.slots,
                grown(old(self)@.capacity()),
            ) ==> final(self)@.counted(),
    {
        let capacity = self.table.len();
        let new_size = grown_capacity(capacity).unwrap();
        let mut new_table: Vec<Bucket<K, V>> = empty_buckets(new_size);
        let ghost source = slots_of(self.table@);
        let mut i: usize = 0;
        while i < capacity
            invariant
                i <= capacity,
                capacity == self.table@.len(),
                capacity == source.len(),
                new_size == grown(capacity as nat),
                new_size > 0,
                new_table@.len() == new_size,
                self.len == old(self).len,
                slots_of(new_table@) == rehashed(source.take(i as int), new_size as nat),
                forall|j: int| i <= j < capacity ==> (#[trigger] self.table@[j])@ == source[j],
            decreases capacity - i,
        {
            let mut bucket = Bucket::new();
            std::mem::swap(&mut self.table[i], &mut bucket);
            proof {
                assert(source.take(i + 1).drop_last() =~= source.take(i as int));
                assert(source.take(i + 1).last() == source[i as int]);
                assert(bucket@ == source[i as int]);
            }
            if bucket.occupied {
                let index = bucket.key.hash() % new_size;
                let ghost placed = slots_of(new_table@);
                new_table[index] = bucket;
                proof {
                    assert(slots_of(new_table@) =~= placed.update(index as int, bucket@));
                }
            }
            i += 1;
        }
        proof {
            assert(source.take(capacity as int) =~= source);
            lemma_rehashed(source, new_size as nat);
            if collision_free(source, new_size as nat) {
                lemma_rehash_keeps_count(source, new_size as nat);
            }
        }
        self.table = new_table;
        proof {
            assert(self@ =~= old(self)@.regrown());
        }
    }

    /// The value in the slot of `key`, cloned, if the slot holds a pair
    /// whose key equals `key`.
    pub fn get(&self, key: &K) -> (r: Option<V>)
        requires
            self.wf(),
        ensures
            match self@.lookup(*key) {
                Some((stored, value)) => match r {
                    Some(v) => compares(stored, *key, true) && cloned(value, v),
                    None => compares(stored, *key, false),
                },
                None => r is None,
            },
            K::obeys_eq_spec() ==> match self@.found(*key) {
                Some(value) => r matches Some(v) && cloned(value, v),
                None => r is None,
            },
    {
        let index = self.hash(key);
        let bucket = &self.table[index];
        if bucket.occupied && bucket.key == *key {
            Some(bucket.value.clone())
        } else {
            None
        }
    }

    /// Empties the slot of `key` and returns its value, if the slot holds
    /// a pair whose key equals `key`; else leaves the table as it is.
    pub fn remove(&mut self, key: &K) -> (r: Option<V>)
        requires
            old(self).wf(),
        ensures
            final(self).wf(),
            match old(self)@.lookup(*key) {
                Some((stored, value)) => match r {
                    Some(v) => compares(stored, *key, true) && v == value
                        && final(self)@ == old(self)@.cleared(*key),
                    None => compares(stored, *key, false) && final(self)@ == old(self)@,
                },
                None => r is None && final(self)@ == old(self)@,
            },
            r is None ==> final(self)@.size == old(self)@.size,
            final(self)@.capacity() == old(self)@.capacity(),
            old(self)@.counted() ==> final(self)@.counted(),
            K::obeys_eq_spec() ==> r == old(self)@.found(*key)
                && final(self)@ == old(self)@.removed(*key),
    {
        let index = self.hash(key);
        let ghost before = self@;
        proof {
            if before.counted() {
                lemma_removed_counted(before, *key);
            }
        }
        if self.table[index].occupied && self.table[index].key == *key {
            let mut bucket = Bucket::new();
            std::mem::swap(&mut self.table[index], &mut bucket);
            proof {
                lemma_count_update(before.slots, index as int, None);
                assert(slots_of(self.table@) =~= before.slots.update(index as int, None));
            }
            self.len = self.len - 1;
            assert(self@ =~= before.cleared(*key));
            Some(bucket.value)
        } else {
            None
        }
    }

    /// The pairs of the table, by ascending slot index.
    pub fn iter(&self) -> (pairs: Vec<(&K, &V)>)
        ensures
            pairs@.len() == self@.entries().len(),
            pairs@.len() == self@.occupied(),
            forall|i: int|
                0 <= i < pairs@.len() ==> *(#[trigger] pairs@[i]).0 == self@.entries()[i].0
                    && *pairs@[i].1 == self@.entries()[i].1,
    {
        let mut pairs: Vec<(&K, &V)> = Vec::new();
        let ghost slots = slots_of(self.table@);
        let mut i: usize = 0;
        while i < self.table.len()
            invariant
                i <= self.table@.len(),
                slots == slots_of(self.table@),
                pairs@.len() == listed(slots.take(i as int)).len(),
                forall|j: int|
                    0 <= j < pairs@.len() ==> *(#[trigger] pairs@[j]).0 == listed(
                        slots.take(i as int),
                    )[j].0 && *pairs@[j].1 == listed(slots.take(i as int))[j].1,
            decreases self.table@.len() - i,
        {
            proof {
                assert(slots.take(i + 1).drop_last() =~= slots.take(i as int));
                assert(slots.take(i + 1).last() == slots[i as int]);
            }
            let bucket = &self.table[i];
            if bucket.occupied {
                pairs.push((&bucket.key, &bucket.value));
            }
            i += 1;
        }
        proof {
            assert(slots.take(self.table@.len() as int) =~= slots);
            lemma_listed_len(slots);
        }
        pairs
    }
}

} // verus!
