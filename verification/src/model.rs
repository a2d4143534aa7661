//! The table as a mathematical value: a sequence of slots and a count,
//! with the operations on it as functions of that value.

use vstd::prelude::*;
use vstd::std_specs::cmp::PartialEqSpec;
use crate::hashable::Hashable;

verus! {

/// The number of slots of a new table.
pub const INITIAL_CAPACITY: usize = 127;

/// Below this capacity a table doubles when it grows; from it on, it grows
/// by the factor 8/5.
pub const DOUBLING_LIMIT: usize = 1000;

/// The load factor is three quarters: this is its numerator.
pub const LOAD_FACTOR_NUMERATOR: usize = 3;

/// The denominator of the load factor.
pub const LOAD_FACTOR_DENOMINATOR: usize = 4;

/// What one slot holds: a key with its value, or nothing.
pub type Slot<K, V> = Option<(K, V)>;

/// Whether `size` entries in `capacity` slots exceed the load factor:
/// whether `size / capacity > 3 / 4`.
pub open spec fn overloaded(size: nat, capacity: nat) -> bool {
    size * LOAD_FACTOR_DENOMINATOR > capacity * LOAD_FACTOR_NUMERATOR
}

/// The capacity that follows `capacity`: twice as much below 1000 slots,
/// else 1.6 times as much, rounded down.
pub open spec fn grown(capacity: nat) -> nat {
    if capacity < DOUBLING_LIMIT {
        capacity * 2
    } else {
        capacity * 8 / 5
    }
}

/// The index of the slot that belongs to `key` among `capacity` slots.
pub open spec fn home<K: Hashable>(key: K, capacity: nat) -> int {
    key.hash_value() as int % capacity as int
}

/// The number of slots that hold a pair.
pub open spec fn count<K, V>(slots: Seq<Slot<K, V>>) -> nat
    decreases slots.len(),
{
    if slots.len() == 0 {
        0
    } else {
        count(slots.drop_last()) + if slots.last() is Some {
            1nat
        } else {
            0nat
        }
    }
}

/// The pairs that the slots hold, by ascending slot index.
pub open spec fn listed<K, V>(slots: Seq<Slot<K, V>>) -> Seq<(K, V)>
    decreases slots.len(),
{
    if slots.len() == 0 {
        Seq::empty()
    } else {
        match slots.last() {
            Some(pair) => listed(slots.drop_last()).push(pair),
            None => listed(slots.drop_last()),
        }
    }
}

/// `capacity` empty slots into which the pairs of `slots` were placed by
/// ascending slot index, each into the home of its key; of the pairs that
/// share a home, the one from the highest slot stays.
pub open spec fn rehashed<K: Hashable, V>(slots: Seq<Slot<K, V>>, capacity: nat) -> Seq<Slot<K, V>>
    decreases slots.len(),
{
    if slots.len() == 0 {
        Seq::new(capacity, |i: int| None)
    } else {
        let before = rehashed(slots.drop_last(), capacity);
        match slots.last() {
            Some((key, value)) => before.update(home(key, capacity), Some((key, value))),
            None => before,
        }
    }
}

/// Whether a rehash of `slots` to `capacity` keeps what slot `i` holds: no
/// pair in a later slot has a key with the same home.
pub open spec fn survives<K: Hashable, V>(slots: Seq<Slot<K, V>>, i: int, capacity: nat) -> bool {
    slots[i] matches Some((key, _)) ==> forall|j: int|
        i < j < slots.len() ==> (#[trigger] slots[j] matches Some((later, _)) ==> home(
            later,
            capacity,
        ) != home(key, capacity))
}

/// Whether no two pairs of `slots` have keys with the same home among
/// `capacity` slots.
pub open spec fn collision_free<K: Hashable, V>(slots: Seq<Slot<K, V>>, capacity: nat) -> bool {
    forall|i: int| 0 <= i < slots.len() ==> #[trigger] survives(slots, i, capacity)
}

/// The contents of a table.
#[verifier::ext_equal]
pub struct Table<K, V> {
    /// The slots, by index.
    pub slots: Seq<Slot<K, V>>,
    /// The count of entries: raised when an empty slot is filled, lowered
    /// when a slot is cleared.
    pub size: nat,
}

impl<K: Hashable, V> Table<K, V> {
    /// The number of slots.
    pub open spec fn capacity(self) -> nat {
        self.slots.len()
    }

    /// The table of `capacity` empty slots.
    pub open spec fn empty(capacity: nat) -> Self {
        Table { slots: Seq::new(capacity, |i: int| None), size: 0 }
    }

    /// The number of slots that hold a pair.
    pub open spec fn occupied(self) -> nat {
        count(self.slots)
    }

    /// Whether every pair sits in the home of its key.
    pub open spec fn placed(self) -> bool {
        forall|i: int|
            0 <= i < self.slots.len() ==> (#[trigger] self.slots[i] matches Some((key, _))
                ==> home(key, self.capacity()) == i)
    }

    /// What holds of a table at any moment: it has at least the initial
    /// capacity, every pair sits in the home of its key, and the count is
    /// no less than the number of pairs.
    pub open spec fn sound(self) -> bool {
        &&& self.capacity() >= INITIAL_CAPACITY
        &&& self.placed()
        &&& self.occupied() <= self.size
    }

    /// What holds of a table between operations: it is sound, and its count
    /// is at most three quarters of its capacity.
    pub open spec fn wf(self) -> bool {
        &&& self.sound()
        &&& !overloaded(self.size, self.capacity())
    }

    /// Whether the count equals the number of pairs.
    pub open spec fn counted(self) -> bool {
        self.size == self.occupied()
    }

    /// What the home of `key` holds.
    pub open spec fn lookup(self, key: K) -> Slot<K, V> {
        self.slots[home(key, self.capacity())]
    }

    /// The pairs of the table, by ascending slot index.
    pub open spec fn entries(self) -> Seq<(K, V)> {
        listed(self.slots)
    }

    /// The table with `key` and `value` in the home of `key`, in place of
    /// whatever was there, and counted if the slot was empty.
    pub open spec fn put(self, key: K, value: V) -> Self {
        Table {
            slots: self.slots.update(home(key, self.capacity()), Some((key, value))),
            size: if self.lookup(key) is None {
                self.size + 1
            } else {
                self.size
            },
        }
    }

    /// Whether an insertion of `key` makes the table grow: it fills an
    /// empty slot, and the count then exceeds three quarters of the
    /// capacity.
    pub open spec fn grows_on(self, key: K) -> bool {
        self.lookup(key) is None && overloaded(self.size + 1, self.capacity())
    }

    /// The table grown to the next capacity, with its pairs placed anew.
    /// The count stays, also where pairs were lost.
    pub open spec fn regrown(self) -> Self {
        Table { slots: rehashed(self.slots, grown(self.capacity())), size: self.size }
    }

    /// The table after an insertion of `key` with `value`.
    pub open spec fn inserted(self, key: K, value: V) -> Self {
        if self.grows_on(key) {
            self.put(key, value).regrown()
        } else {
            self.put(key, value)
        }
    }

    /// Whether an insertion of `key` with `value` keeps the pair that the
    /// home of `kept` then holds: the table does not grow, or no pair
    /// behind that slot shares the home of its key under the next
    /// capacity.
    pub open spec fn insert_keeps(self, key: K, value: V, kept: K) -> bool {
        self.grows_on(key) ==> survives(
            self.put(key, value).slots,
            home(kept, self.capacity()),
            grown(self.capacity()),
        )
    }

    /// Whether an insertion of `key` with `value` loses no pair: the table
    /// does not grow, or no two pairs share a home under the next capacity.
    pub open spec fn insert_keeps_all(self, key: K, value: V) -> bool {
        self.grows_on(key) ==> collision_free(self.put(key, value).slots, grown(self.capacity()))
    }

    /// The table with the home of `key` emptied and the count lowered.
    pub open spec fn cleared(self, key: K) -> Self {
        Table {
            slots: self.slots.update(home(key, self.capacity()), None),
            size: (self.size - 1) as nat,
        }
    }
}

/// An operation that changes a table.
pub enum Op<K, V> {
    /// The insertion of a key with a value.
    Insert(K, V),
    /// The removal of a key.
    Remove(K),
}

impl<K: Hashable + PartialEq, V> Table<K, V> {
    /// The value stored for `key`, where `==` on keys is the function
    /// `eq_spec`: the value in the home of `key`, if the key there equals
    /// `key`.
    pub open spec fn found(self, key: K) -> Option<V> {
        match self.lookup(key) {
            Some((stored, value)) => if stored.eq_spec(&key) {
                Some(value)
            } else {
                None
            },
            None => None,
        }
    }

    /// The table after a removal of `key`, where `==` on keys is the
    /// function `eq_spec`: the home of `key` is emptied if `key` is found,
    /// else nothing changes.
    pub open spec fn removed(self, key: K) -> Self {
        if self.found(key) is Some {
            self.cleared(key)
        } else {
            self
        }
    }

    /// The table after `op`.
    pub open spec fn applied(self, op: Op<K, V>) -> Self {
        match op {
            Op::Insert(key, value) => self.inserted(key, value),
            Op::Remove(key) => self.removed(key),
        }
    }

    /// The table after the operations `ops`, first one first.
    pub open spec fn run(self, ops: Seq<Op<K, V>>) -> Self
        decreases ops.len(),
    {
        if ops.len() == 0 {
            self
        } else {
            self.run(ops.drop_last()).applied(ops.last())
        }
    }

    /// Whether no insertion among `ops` loses a pair: whether, wherever
    /// one makes the table grow, no two pairs share a home under the next
    /// capacity.
    pub open spec fn loses_nothing(self, ops: Seq<Op<K, V>>) -> bool {
        forall|i: int|
            0 <= i < ops.len() ==> (#[trigger] ops[i] matches Op::Insert(key, value) ==> self.run(
                ops.take(i),
            ).insert_keeps_all(key, value))
    }

    /// Whether every one of `ops` is an insertion that meets an empty
    /// slot.
    pub open spec fn fills_empty_slots(self, ops: Seq<Op<K, V>>) -> bool {
        forall|i: int|
            0 <= i < ops.len() ==> (#[trigger] ops[i] matches Op::Insert(key, _) && self.run(
                ops.take(i),
            ).lookup(key) is None)
    }
}

/// Whether `stored == key`, evaluated on keys, can yield `outcome`.
pub open spec fn compares<K: PartialEq>(stored: K, key: K, outcome: bool) -> bool {
    call_ensures(K::eq, (&stored, &key), outcome)
}

/// Empty slots hold no pair.
pub proof fn lemma_count_empty<K, V>(capacity: nat)
    ensures
        count(Seq::<Slot<K, V>>::new(capacity, |i: int| None)) == 0,
    decreases capacity,
{
    let slots = Seq::<Slot<K, V>>::new(capacity, |i: int| None);
    if capacity > 0 {
        assert(slots.drop_last() =~= Seq::<Slot<K, V>>::new((capacity - 1) as nat, |i: int| None));
        lemma_count_empty::<K, V>((capacity - 1) as nat);
    }
}

/// A change of one slot changes the number of pairs by what the slot gains
/// or loses.
pub proof fn lemma_count_update<K, V>(slots: Seq<Slot<K, V>>, i: int, slot: Slot<K, V>)
    requires
        0 <= i < slots.len(),
    ensures
        count(slots.update(i, slot)) + (if slots[i] is Some {
            1nat
        } else {
            0nat
        }) == count(slots) + (if slot is Some {
            1nat
        } else {
            0nat
        }),
    decreases slots.len(),
{
    let changed = slots.update(i, slot);
    if i == slots.len() - 1 {
        assert(changed.drop_last() =~= slots.drop_last());
    } else {
        assert(changed.drop_last() =~= slots.drop_last().update(i, slot));
        lemma_count_update(slots.drop_last(), i, slot);
    }
}

/// A rehash to a capacity above zero yields that many slots, each pair in
/// the home of its key, each taken from the slots that were rehashed, and no
/// more pairs than there were.
pub proof fn lemma_rehashed<K: Hashable, V>(slots: Seq<Slot<K, V>>, capacity: nat)
    requires
        capacity > 0,
    ensures
        rehashed(slots, capacity).len() == capacity,
        count(rehashed(slots, capacity)) <= count(slots),
        forall|i: int|
            0 <= i < capacity ==> (#[trigger] rehashed(slots, capacity)[i] matches Some((key, _))
                ==> home(key, capacity) == i),
        forall|i: int|
            0 <= i < capacity && rehashed(slots, capacity)[i] is Some ==> slots.contains(
                #[trigger] rehashed(slots, capacity)[i],
            ),
    decreases slots.len(),
{
    if slots.len() == 0 {
        lemma_count_empty::<K, V>(capacity);
    } else {
        let before = rehashed(slots.drop_last(), capacity);
        lemma_rehashed(slots.drop_last(), capacity);
        assert forall|i: int| 0 <= i < capacity && before[i] is Some implies slots.contains(
            #[trigger] before[i],
        ) by {
            let j = choose|j: int| 0 <= j < slots.drop_last().len() && slots.drop_last()[j] == before[i];
            assert(slots[j] == before[i]);
        }
        match slots.last() {
            Some((key, value)) => {
                let h = home(key, capacity);
                lemma_count_update(before, h, Some((key, value)));
                assert(slots[slots.len() - 1] == Some((key, value)));
            },
            None => {},
        }
    }
}

/// A rehash keeps the pair of a slot behind which no pair shares its home.
pub proof fn lemma_rehash_keeps<K: Hashable, V>(slots: Seq<Slot<K, V>>, i: int, capacity: nat)
    requires
        capacity > 0,
        0 <= i < slots.len(),
        slots[i] is Some,
        survives(slots, i, capacity),
    ensures
        rehashed(slots, capacity)[home(slots[i].unwrap().0, capacity)] == slots[i],
    decreases slots.len(),
{
    let before = rehashed(slots.drop_last(), capacity);
    lemma_rehashed(slots.drop_last(), capacity);
    if i < slots.len() - 1 {
        assert(slots.drop_last()[i] == slots[i]);
        assert forall|j: int| i < j < slots.drop_last().len() implies (
        #[trigger] slots.drop_last()[j] matches Some((later, _)) ==> home(later, capacity) != home(
            slots[i].unwrap().0,
            capacity,
        )) by {
            assert(slots.drop_last()[j] == slots[j]);
        }
        lemma_rehash_keeps(slots.drop_last(), i, capacity);
        assert(slots[slots.len() - 1] == slots.last());
    }
}

/// After a rehash the home of every key that was in the slots holds a
/// pair, that of the key or one that displaced it.
pub proof fn lemma_rehash_fills_home<K: Hashable, V>(slots: Seq<Slot<K, V>>, i: int, capacity: nat)
    requires
        capacity > 0,
        0 <= i < slots.len(),
        slots[i] is Some,
    ensures
        rehashed(slots, capacity)[home(slots[i].unwrap().0, capacity)] is Some,
    decreases slots.len(),
{
    lemma_rehashed(slots.drop_last(), capacity);
    if i < slots.len() - 1 {
        assert(slots.drop_last()[i] == slots[i]);
        lemma_rehash_fills_home(slots.drop_last(), i, capacity);
    }
}

/// What a rehash leaves in slot `j`: nothing, where no key of the slots
/// has the home `j`; else the pair of the last slot whose key has that
/// home.
pub proof fn lemma_rehashed_slot<K: Hashable, V>(slots: Seq<Slot<K, V>>, capacity: nat, j: int)
    requires
        0 <= j < capacity,
    ensures
        match rehashed(slots, capacity)[j] {
            Some(pair) => exists|i: int|
                0 <= i < slots.len() && #[trigger] slots[i] == Some(pair) && home(pair.0, capacity)
                    == j && survives(slots, i, capacity),
            None => forall|i: int|
                0 <= i < slots.len() ==> (#[trigger] slots[i] matches Some((key, _)) ==> home(
                    key,
                    capacity,
                ) != j),
        },
    decreases slots.len(),
{
    if slots.len() > 0 {
        let front = slots.drop_last();
        let before = rehashed(front, capacity);
        let last = slots.len() - 1;
        lemma_rehashed(front, capacity);
        lemma_rehashed_slot(front, capacity, j);
        assert forall|i: int| 0 <= i < front.len() implies front[i] == slots[i] by {}
        assert(slots[last] == slots.last());
        if slots.last() matches Some((key, value)) && home(key, capacity) == j {
            assert(survives(slots, last, capacity));
        } else {
            match before[j] {
                Some(pair) => {
                    let i = choose|i: int|
                        0 <= i < front.len() && #[trigger] front[i] == Some(pair) && home(
                            pair.0,
                            capacity,
                        ) == j && survives(front, i, capacity);
                    assert(slots[i] == Some(pair));
                    assert(survives(slots, i, capacity));
                },
                None => {},
            }
        }
    }
}

/// A rehash in which no two pairs share a home keeps the number of pairs.
pub proof fn lemma_rehash_keeps_count<K: Hashable, V>(slots: Seq<Slot<K, V>>, capacity: nat)
    requires
        capacity > 0,
        collision_free(slots, capacity),
    ensures
        count(rehashed(slots, capacity)) == count(slots),
        forall|i: int|
            0 <= i < slots.len() && slots[i] is Some ==> #[trigger] rehashed(slots, capacity)[home(
                slots[i].unwrap().0,
                capacity,
            )] == slots[i],
    decreases slots.len(),
{
    if slots.len() == 0 {
        lemma_count_empty::<K, V>(capacity);
    } else {
        let front = slots.drop_last();
        let before = rehashed(front, capacity);
        assert forall|i: int| 0 <= i < front.len() implies #[trigger] survives(
            front,
            i,
            capacity,
        ) by {
            assert(survives(slots, i, capacity));
            assert(front[i] == slots[i]);
            assert forall|j: int| i < j < front.len() implies front[j] == slots[j] by {}
        }
        lemma_rehash_keeps_count(front, capacity);
        lemma_rehashed(front, capacity);
        assert forall|i: int| 0 <= i < slots.len() && slots[i] is Some implies #[trigger] rehashed(
            slots,
            capacity,
        )[home(slots[i].unwrap().0, capacity)] == slots[i] by {
            assert(survives(slots, i, capacity));
            lemma_rehash_keeps(slots, i, capacity);
        }
        match slots.last() {
            Some((key, value)) => {
                let h = home(key, capacity);
                lemma_count_update(before, h, Some((key, value)));
                if before[h] is Some {
                    let j = choose|j: int| 0 <= j < front.len() && front[j] == before[h];
                    assert(slots[j] == before[h]);
                    assert(survives(slots, j, capacity));
                    assert(slots[slots.len() - 1] == Some((key, value)));
                    assert(false);
                }
            },
            None => {},
        }
    }
}

} // verus!
