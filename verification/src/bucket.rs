//! One slot of the table.

use vstd::prelude::*;

verus! {

/// A slot: a key, a value, and whether the slot is in use. An unused slot
/// holds default values, which stand for nothing.
pub struct Bucket<K, V> {
    pub key: K,
    pub value: V,
    pub occupied: bool,
}

impl<K, V> View for Bucket<K, V> {
    type V = Option<(K, V)>;

    /// The pair that the slot holds, if it holds one.
    open spec fn view(&self) -> Option<(K, V)> {
        if self.occupied {
            Some((self.key, self.value))
        } else {
            None
        }
    }
}

impl<K: Default, V: Default> Bucket<K, V> {
    /// An empty slot: default key, default value, not occupied.
    pub fn new() -> (bucket: Self)
        ensures
            !bucket.occupied,
            bucket@ is None,
            call_ensures(K::default, (), bucket.key),
            call_ensures(V::default, (), bucket.value),
    {
        Bucket { key: K::default(), value: V::default(), occupied: false }
    }
}

impl<K: Default, V: Default> Default for Bucket<K, V> {
    /// An empty slot, as `Bucket::new` makes it.
    fn default() -> (bucket: Self)
        ensures
            !bucket.occupied,
            bucket@ is None,
            call_ensures(K::default, (), bucket.key),
            call_ensures(V::default, (), bucket.value),
    {
        Bucket::new()
    }
}

} // verus!
