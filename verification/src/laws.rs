//! What holds of the table's operations taken together, stated over the
//! contents that their contracts speak of.

use vstd::arithmetic::div_mod::lemma_mod_mod;
use vstd::prelude::*;
use vstd::std_specs::cmp::PartialEqSpec;
use crate::hashable::Hashable;
use crate::model::{
    collision_free, count, grown, home, lemma_count_empty, lemma_count_update,
    lemma_rehash_fills_home, lemma_rehash_keeps, lemma_rehash_keeps_count, lemma_rehashed, listed,
    overloaded, survives, Op, Slot, Table, DOUBLING_LIMIT, INITIAL_CAPACITY,
};

verus! {

/// A new table holds nothing, and its count says so.
pub proof fn lemma_empty_table<K: Hashable, V>()
    ensures
        Table::<K, V>::empty(INITIAL_CAPACITY as nat).wf(),
        Table::<K, V>::empty(INITIAL_CAPACITY as nat).counted(),
        Table::<K, V>::empty(INITIAL_CAPACITY as nat).entries() == Seq::<(K, V)>::empty(),
        forall|key: K| Table::<K, V>::empty(INITIAL_CAPACITY as nat).lookup(key) is None,
{
    let t = Table::<K, V>::empty(INITIAL_CAPACITY as nat);
    lemma_count_empty::<K, V>(INITIAL_CAPACITY as nat);
    lemma_listed_len(t.slots);
}

/// An insertion leaves the table well formed: the count stays within three
/// quarters of the capacity. The capacity never shrinks: it stays, or
/// becomes the next capacity where the table grows. The count rises by one
/// where the slot of the key was empty, and stays otherwise.
pub proof fn lemma_inserted_wf<K: Hashable, V>(t: Table<K, V>, key: K, value: V)
    requires
        t.wf(),
    ensures
        t.inserted(key, value).wf(),
        t.inserted(key, value).capacity() == (if t.grows_on(key) {
            grown(t.capacity())
        } else {
            t.capacity()
        }),
        t.inserted(key, value).capacity() >= t.capacity(),
        t.inserted(key, value).size == (if t.lookup(key) is None {
            t.size + 1
        } else {
            t.size
        }),
{
    let h = home(key, t.capacity());
    let p = t.put(key, value);
    lemma_count_update(t.slots, h, Some((key, value)));
    assert(p.placed());
    if t.grows_on(key) {
        lemma_rehashed(p.slots, grown(t.capacity()));
    }
}

/// After an insertion the home of the key holds the key with its value,
/// unless the table grew and a pair from a later slot took that home.
pub proof fn lemma_inserted_lookup<K: Hashable, V>(t: Table<K, V>, key: K, value: V)
    requires
        t.wf(),
        t.insert_keeps(key, value, key),
    ensures
        t.inserted(key, value).lookup(key) == Some((key, value)),
{
    let h = home(key, t.capacity());
    let p = t.put(key, value);
    if t.grows_on(key) {
        lemma_rehashed(p.slots, grown(t.capacity()));
        lemma_rehash_keeps(p.slots, h, grown(t.capacity()));
    }
}

/// An insertion leaves a pair with another home where it is, unless the
/// table grew and a pair from a later slot took its new home.
pub proof fn lemma_inserted_keeps_other<K: Hashable, V>(
    t: Table<K, V>,
    key: K,
    value: V,
    other: K,
    other_value: V,
)
    requires
        t.wf(),
        t.lookup(other) == Some((other, other_value)),
        home(other, t.capacity()) != home(key, t.capacity()),
        t.insert_keeps(key, value, other),
    ensures
        t.inserted(key, value).lookup(other) == Some((other, other_value)),
{
    let h = home(other, t.capacity());
    let p = t.put(key, value);
    assert(p.slots[h] == Some((other, other_value)));
    if t.grows_on(key) {
        lemma_rehashed(p.slots, grown(t.capacity()));
        lemma_rehash_keeps(p.slots, h, grown(t.capacity()));
    }
}

/// Two keys with different homes, inserted one after the other, are both
/// in their homes afterwards, each with its value, and a lookup finds each
/// where the key equals itself. Left out are the insertions that make the
/// table grow and lose one of the two pairs to a pair from a later slot.
pub proof fn lemma_two_homes_both_found<K: Hashable + PartialEq, V>(
    t: Table<K, V>,
    k1: K,
    v1: V,
    k2: K,
    v2: V,
)
    requires
        t.wf(),
        t.insert_keeps(k1, v1, k1),
        home(k1, t.inserted(k1, v1).capacity()) != home(k2, t.inserted(k1, v1).capacity()),
        t.inserted(k1, v1).insert_keeps(k2, v2, k1),
        t.inserted(k1, v1).insert_keeps(k2, v2, k2),
    ensures
        t.inserted(k1, v1).inserted(k2, v2).lookup(k1) == Some((k1, v1)),
        t.inserted(k1, v1).inserted(k2, v2).lookup(k2) == Some((k2, v2)),
        k1.eq_spec(&k1) ==> t.inserted(k1, v1).inserted(k2, v2).found(k1) == Some(v1),
        k2.eq_spec(&k2) ==> t.inserted(k1, v1).inserted(k2, v2).found(k2) == Some(v2),
{
    let t1 = t.inserted(k1, v1);
    lemma_inserted_wf(t, k1, v1);
    lemma_inserted_lookup(t, k1, v1);
    lemma_inserted_lookup(t1, k2, v2);
    lemma_inserted_keeps_other(t1, k2, v2, k1, v1);
}

/// In a table that stays below 1000 slots, two keys with different homes,
/// inserted one after the other, are both in their homes afterwards, each
/// with its value: such a table loses no pair when it grows.
pub proof fn lemma_two_homes_both_found_while_doubling<K: Hashable + PartialEq, V>(
    t: Table<K, V>,
    k1: K,
    v1: V,
    k2: K,
    v2: V,
)
    requires
        t.wf(),
        t.inserted(k1, v1).capacity() < DOUBLING_LIMIT,
        home(k1, t.inserted(k1, v1).capacity()) != home(k2, t.inserted(k1, v1).capacity()),
    ensures
        t.inserted(k1, v1).inserted(k2, v2).lookup(k1) == Some((k1, v1)),
        t.inserted(k1, v1).inserted(k2, v2).lookup(k2) == Some((k2, v2)),
        k1.eq_spec(&k1) ==> t.inserted(k1, v1).inserted(k2, v2).found(k1) == Some(v1),
        k2.eq_spec(&k2) ==> t.inserted(k1, v1).inserted(k2, v2).found(k2) == Some(v2),
{
    lemma_inserted_wf(t, k1, v1);
    lemma_doubling_keeps_all(t, k1, v1);
    lemma_doubling_keeps_all(t.inserted(k1, v1), k2, v2);
    lemma_two_homes_both_found(t, k1, v1, k2, v2);
}

/// Of two keys with the same home, inserted one after the other, the
/// second takes the slot: the home holds the second key with its value,
/// the first pair is gone, and neither the count nor the capacity changes
/// with the second insertion. A lookup of the second key finds its value
/// where the key equals itself; a lookup of the first finds nothing where
/// the second key does not equal it.
pub proof fn lemma_shared_home_last_wins<K: Hashable + PartialEq, V>(
    t: Table<K, V>,
    k1: K,
    v1: V,
    k2: K,
    v2: V,
)
    requires
        t.wf(),
        home(k1, t.inserted(k1, v1).capacity()) == home(k2, t.inserted(k1, v1).capacity()),
    ensures
        t.inserted(k1, v1).inserted(k2, v2) == t.inserted(k1, v1).put(k2, v2),
        t.inserted(k1, v1).inserted(k2, v2).lookup(k1) == Some((k2, v2)),
        t.inserted(k1, v1).inserted(k2, v2).lookup(k2) == Some((k2, v2)),
        t.inserted(k1, v1).inserted(k2, v2).size == t.inserted(k1, v1).size,
        t.inserted(k1, v1).inserted(k2, v2).capacity() == t.inserted(k1, v1).capacity(),
        k2.eq_spec(&k2) ==> t.inserted(k1, v1).inserted(k2, v2).found(k2) == Some(v2),
        !k2.eq_spec(&k1) ==> t.inserted(k1, v1).inserted(k2, v2).found(k1) is None,
{
    let h = home(k1, t.capacity());
    let p = t.put(k1, v1);
    let t1 = t.inserted(k1, v1);
    lemma_inserted_wf(t, k1, v1);
    if t.grows_on(k1) {
        lemma_rehashed(p.slots, grown(t.capacity()));
        lemma_rehash_fills_home(p.slots, h, grown(t.capacity()));
    }
    assert(t1.lookup(k1) is Some);
}

/// An insertion that loses no pair keeps the count equal to the number of
/// pairs. An insertion loses pairs only where the table grows and two
/// pairs share a home under the next capacity.
pub proof fn lemma_inserted_counted<K: Hashable, V>(t: Table<K, V>, key: K, value: V)
    requires
        t.wf(),
        t.counted(),
        t.insert_keeps_all(key, value),
    ensures
        t.inserted(key, value).counted(),
{
    let h = home(key, t.capacity());
    let p = t.put(key, value);
    lemma_count_update(t.slots, h, Some((key, value)));
    if t.grows_on(key) {
        lemma_rehash_keeps_count(p.slots, grown(t.capacity()));
    }
}

/// A removal leaves the table well formed and its capacity as it is. It
/// keeps the count equal to the number of pairs, whether it finds its key
/// or not, and so does emptying a slot that holds a pair.
pub proof fn lemma_removed_counted<K: Hashable + PartialEq, V>(t: Table<K, V>, key: K)
    requires
        t.wf(),
    ensures
        t.removed(key).wf(),
        t.removed(key).capacity() == t.capacity(),
        t.counted() ==> t.removed(key).counted(),
        t.counted() && t.lookup(key) is Some ==> t.cleared(key).counted(),
{
    let h = home(key, t.capacity());
    lemma_count_update(t.slots, h, None);
    assert(t.cleared(key).placed());
}

/// A table that doubles when it grows loses no pair: two keys with
/// different homes keep different homes among twice as many slots.
pub proof fn lemma_doubling_keeps_all<K: Hashable, V>(t: Table<K, V>, key: K, value: V)
    requires
        t.wf(),
        t.capacity() < DOUBLING_LIMIT,
    ensures
        t.insert_keeps_all(key, value),
        forall|kept: K| t.insert_keeps(key, value, kept),
{
    let c = t.capacity();
    let p = t.put(key, value);
    assert(p.placed());
    assert forall|i: int| 0 <= i < p.slots.len() implies #[trigger] survives(
        p.slots,
        i,
        grown(c),
    ) by {
        if p.slots[i] is Some {
            let first = p.slots[i].unwrap().0;
            assert forall|j: int| i < j < p.slots.len() implies (#[trigger] p.slots[j] matches Some(
                (later, _),
            ) ==> home(later, grown(c)) != home(first, grown(c))) by {
                if p.slots[j] is Some {
                    let later = p.slots[j].unwrap().0;
                    lemma_mod_mod(first.hash_value() as int, c as int, 2);
                    lemma_mod_mod(later.hash_value() as int, c as int, 2);
                }
            }
        }
    }
    assert forall|kept: K| t.insert_keeps(key, value, kept) by {
        if t.grows_on(key) {
            assert(survives(p.slots, home(kept, c), grown(c)));
        }
    }
}

/// What holds of all of `ops` holds of all but the last, and of the last
/// on the table that the others lead to.
proof fn lemma_loses_nothing_front<K: Hashable + PartialEq, V>(t: Table<K, V>, ops: Seq<Op<K, V>>)
    requires
        ops.len() > 0,
        t.loses_nothing(ops),
    ensures
        t.loses_nothing(ops.drop_last()),
        ops.last() matches Op::Insert(key, value) ==> t.run(ops.drop_last()).insert_keeps_all(
            key,
            value,
        ),
{
    let front = ops.drop_last();
    assert forall|i: int| 0 <= i < front.len() implies (#[trigger] front[i] matches Op::Insert(
        key,
        value,
    ) ==> t.run(front.take(i)).insert_keeps_all(key, value)) by {
        assert(front.take(i) =~= ops.take(i));
        assert(front[i] == ops[i]);
    }
    assert(ops.take(ops.len() - 1) =~= front);
    assert(ops[ops.len() - 1] == ops.last());
}

/// What holds of all of `ops` holds of all but the last, and of the last
/// on the table that the others lead to.
proof fn lemma_fills_empty_slots_front<K: Hashable + PartialEq, V>(
    t: Table<K, V>,
    ops: Seq<Op<K, V>>,
)
    requires
        ops.len() > 0,
        t.fills_empty_slots(ops),
    ensures
        t.fills_empty_slots(ops.drop_last()),
        ops.last() matches Op::Insert(key, _) && t.run(ops.drop_last()).lookup(key) is None,
{
    let front = ops.drop_last();
    assert forall|i: int| 0 <= i < front.len() implies (#[trigger] front[i] matches Op::Insert(
        key,
        _,
    ) && t.run(front.take(i)).lookup(key) is None) by {
        assert(front.take(i) =~= ops.take(i));
        assert(front[i] == ops[i]);
    }
    assert(ops.take(ops.len() - 1) =~= front);
    assert(ops[ops.len() - 1] == ops.last());
}

/// Whatever operations a table goes through, it stays well formed, so that
/// its count never exceeds three quarters of its capacity, and its
/// capacity never shrinks. If its count equalled the number of its pairs
/// before, and no insertion on the way lost a pair, the count equals the
/// number of pairs afterwards.
pub proof fn lemma_run<K: Hashable + PartialEq, V>(t: Table<K, V>, ops: Seq<Op<K, V>>)
    requires
        t.wf(),
    ensures
        t.run(ops).wf(),
        t.run(ops).capacity() >= t.capacity(),
        t.counted() && t.loses_nothing(ops) ==> t.run(ops).counted(),
    decreases ops.len(),
{
    if ops.len() > 0 {
        let mid = t.run(ops.drop_last());
        lemma_run(t, ops.drop_last());
        let keeps = t.counted() && t.loses_nothing(ops);
        if keeps {
            lemma_loses_nothing_front(t, ops);
        }
        match ops.last() {
            Op::Insert(key, value) => {
                lemma_inserted_wf(mid, key, value);
                if keeps {
                    lemma_inserted_counted(mid, key, value);
                }
            },
            Op::Remove(key) => {
                lemma_removed_counted(mid, key);
            },
        }
    }
}

/// One more entry in an empty slot of a table that holds `n` entries in
/// 127 slots, or in 254 slots if it holds more than 95: the table grows
/// from 127 to 254 slots with entry 96, and at no other entry up to the
/// 190th.
proof fn lemma_entry_in_empty_slot<K: Hashable, V>(t: Table<K, V>, key: K, value: V, n: nat)
    requires
        t.wf(),
        t.counted(),
        n < 190,
        t.size == n,
        t.capacity() == (if n <= 95 {
            127nat
        } else {
            254nat
        }),
        t.lookup(key) is None,
    ensures
        t.inserted(key, value).wf(),
        t.inserted(key, value).counted(),
        t.inserted(key, value).size == n + 1,
        t.inserted(key, value).capacity() == (if n + 1 <= 95 {
            127nat
        } else {
            254nat
        }),
{
    lemma_inserted_wf(t, key, value);
    lemma_doubling_keeps_all(t, key, value);
    lemma_inserted_counted(t, key, value);
}

/// Insertions into a new table, each of which meets an empty slot, leave
/// it at 127 slots up to the 95th and take it to 254 slots with the 96th,
/// where it stays up to the 190th. The count is the number of insertions,
/// and the number of pairs.
pub proof fn lemma_growth_with_entry_96<K: Hashable + PartialEq, V>(ops: Seq<Op<K, V>>)
    requires
        Table::<K, V>::empty(INITIAL_CAPACITY as nat).fills_empty_slots(ops),
        ops.len() <= 190,
    ensures
        Table::<K, V>::empty(INITIAL_CAPACITY as nat).run(ops).wf(),
        Table::<K, V>::empty(INITIAL_CAPACITY as nat).run(ops).size == ops.len(),
        Table::<K, V>::empty(INITIAL_CAPACITY as nat).run(ops).counted(),
        Table::<K, V>::empty(INITIAL_CAPACITY as nat).run(ops).capacity() == (if ops.len() <= 95 {
            127nat
        } else {
            254nat
        }),
    decreases ops.len(),
{
    let t = Table::<K, V>::empty(INITIAL_CAPACITY as nat);
    if ops.len() == 0 {
        lemma_empty_table::<K, V>();
    } else {
        let mid = t.run(ops.drop_last());
        lemma_fills_empty_slots_front(t, ops);
        lemma_growth_with_entry_96(ops.drop_last());
        match ops.last() {
            Op::Insert(key, value) => {
                lemma_entry_in_empty_slot(mid, key, value, ops.drop_last().len());
            },
            Op::Remove(key) => {},
        }
    }
}

/// A table of 127 slots takes 95 entries without growing; the entry that
/// fills an empty slot after them makes it grow to 254 slots.
pub proof fn lemma_first_growth<K: Hashable, V>(t: Table<K, V>, key: K, value: V)
    requires
        t.wf(),
        t.capacity() == INITIAL_CAPACITY,
        t.lookup(key) is None,
    ensures
        t.size <= 95,
        t.grows_on(key) <==> t.size == 95,
        t.inserted(key, value).size == t.size + 1,
        t.inserted(key, value).capacity() == (if t.size == 95 {
            254nat
        } else {
            127nat
        }),
        forall|size: nat| overloaded(size, INITIAL_CAPACITY as nat) <==> size > 95,
        grown(INITIAL_CAPACITY as nat) == 254,
{
    lemma_inserted_wf(t, key, value);
}

/// A key that was inserted and then removed is not found, and neither is
/// any key after its slot was emptied.
pub proof fn lemma_removed_not_found<K: Hashable + PartialEq, V>(t: Table<K, V>, key: K, value: V)
    requires
        t.wf(),
    ensures
        t.inserted(key, value).removed(key).found(key) is None,
        t.cleared(key).lookup(key) is None,
        t.cleared(key).found(key) is None,
        t.removed(key).found(key) is None,
{
    lemma_inserted_wf(t, key, value);
}

/// The listing holds as many pairs as there are slots with a pair.
pub proof fn lemma_listed_len<K, V>(slots: Seq<Slot<K, V>>)
    ensures
        listed(slots).len() == count(slots),
    decreases slots.len(),
{
    if slots.len() > 0 {
        lemma_listed_len(slots.drop_last());
    }
}

/// The listing holds the pair of slot `i` at the position that equals the
/// number of pairs in the slots before `i`: every pair once, by ascending
/// slot index.
pub proof fn lemma_listed_position<K, V>(slots: Seq<Slot<K, V>>, i: int)
    requires
        0 <= i < slots.len(),
        slots[i] is Some,
    ensures
        count(slots.take(i)) < listed(slots).len(),
        listed(slots)[count(slots.take(i)) as int] == slots[i].unwrap(),
    decreases slots.len(),
{
    let front = slots.drop_last();
    lemma_listed_len(slots);
    lemma_listed_len(front);
    if i == slots.len() - 1 {
        assert(slots.take(i) =~= front);
    } else {
        assert(front.take(i) =~= slots.take(i));
        lemma_listed_position(front, i);
    }
}

} // verus!
