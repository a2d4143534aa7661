use hashtable::bucket::Bucket;
use hashtable::hashable::Hashable;
use hashtable::model::{DOUBLING_LIMIT, INITIAL_CAPACITY};
use hashtable::table::{grown_capacity, is_overloaded, HashTable};

fn fruit() -> HashTable<&'static str, i32> {
    let mut t = HashTable::new();
    t.insert("apple", 5);
    t.insert("banana", 10);
    t.insert("orange", 15);
    t
}

fn key(n: usize) -> String {
    format!("key{}", n)
}

// Whether the slot of `k` holds no pair.
fn slot_is_free(t: &HashTable<String, usize>, k: &String) -> bool {
    let home = t.hash(k);
    t.iter().iter().all(|(stored, _)| t.hash(stored) != home)
}

// Inserts `key(n)` with value `n` for n = 0, 1, .. into empty slots only,
// until the table counts `wanted` entries. Returns the next candidate.
fn fill(t: &mut HashTable<String, usize>, wanted: usize, from: usize) -> usize {
    let mut n = from;
    while t.len() < wanted {
        let k = key(n);
        if slot_is_free(t, &k) {
            t.insert(k, n);
        }
        n += 1;
    }
    n
}

#[test]
fn new_table_is_empty() {
    let t: HashTable<&str, i32> = HashTable::new();
    assert_eq!(t.len(), 0);
    assert_eq!(t.capacity(), 127);
    assert_eq!(t.capacity(), INITIAL_CAPACITY);
    assert!(t.iter().is_empty());
    assert_eq!(t.get(&"apple"), None);
}

#[test]
fn empty_bucket_holds_defaults() {
    let b: Bucket<&str, i32> = Bucket::new();
    assert!(!b.occupied);
    assert_eq!(b.key, "");
    assert_eq!(b.value, 0);
    let d: Bucket<String, u8> = Bucket::default();
    assert!(!d.occupied);
    assert_eq!(d.key, String::new());
    assert_eq!(d.value, 0);
}

#[test]
fn slot_index_is_hash_modulo_capacity() {
    let t: HashTable<&str, i32> = HashTable::new();
    assert_eq!(t.hash(&"apple"), 118);
    assert_eq!(t.hash(&"banana"), 84);
    assert_eq!(t.hash(&"orange"), 39);
    assert_eq!(t.hash(&"Hello"), 39);
    assert_eq!(t.hash(&"apple"), "apple".hash() % 127);
    let mut grown: HashTable<&str, i32> = HashTable::new();
    grown.resize();
    assert_eq!(grown.capacity(), 254);
    assert_eq!(grown.hash(&"apple"), 245);
    assert_eq!(grown.hash(&"banana"), 84);
}

#[test]
fn inserted_values_are_found() {
    let t = fruit();
    assert_eq!(t.get(&"apple"), Some(5));
    assert_eq!(t.get(&"banana"), Some(10));
    assert_eq!(t.get(&"orange"), Some(15));
    assert_eq!(t.get(&"pear"), None);
    assert_eq!(t.len(), 3);
    assert_eq!(t.capacity(), 127);
}

#[test]
fn keys_with_different_slots_are_both_kept() {
    let mut t: HashTable<&str, i32> = HashTable::new();
    assert_ne!(t.hash(&"apple"), t.hash(&"banana"));
    t.insert("apple", 1);
    t.insert("banana", 2);
    assert_eq!(t.get(&"apple"), Some(1));
    assert_eq!(t.get(&"banana"), Some(2));
    assert_eq!(t.len(), 2);
}

#[test]
fn second_key_of_a_slot_replaces_the_first() {
    let mut t: HashTable<&str, i32> = HashTable::new();
    assert_eq!(t.hash(&"orange"), t.hash(&"Hello"));
    t.insert("orange", 1);
    t.insert("Hello", 2);
    assert_eq!(t.get(&"orange"), None);
    assert_eq!(t.get(&"Hello"), Some(2));
    assert_eq!(t.len(), 1);
    assert_eq!(t.iter(), vec![(&"Hello", &2)]);
}

#[test]
fn same_key_again_replaces_the_value() {
    let mut t: HashTable<&str, i32> = HashTable::new();
    t.insert("apple", 1);
    t.insert("apple", 2);
    assert_eq!(t.get(&"apple"), Some(2));
    assert_eq!(t.len(), 1);
    assert_eq!(t.iter(), vec![(&"apple", &2)]);
}

#[test]
fn iteration_follows_slot_order() {
    let t = fruit();
    assert_eq!(t.iter(), vec![(&"orange", &15), (&"banana", &10), (&"apple", &5)]);
    // A second pass yields the same pairs.
    assert_eq!(t.iter(), t.iter());
    let mut other: HashTable<&str, i32> = HashTable::new();
    other.insert("orange", 15);
    other.insert("apple", 5);
    other.insert("banana", 10);
    assert_eq!(other.iter(), t.iter());
}

#[test]
fn size_counts_the_occupied_slots() {
    let mut t = fruit();
    assert_eq!(t.len(), t.iter().len());
    t.insert("hello", 1);
    t.insert("World", 2);
    assert_eq!(t.len(), 5);
    assert_eq!(t.len(), t.iter().len());
    assert_eq!(t.remove(&"banana"), Some(10));
    assert_eq!(t.len(), 4);
    assert_eq!(t.len(), t.iter().len());
    assert_eq!(t.remove(&"banana"), None);
    assert_eq!(t.len(), 4);
    t.insert("banana", 11);
    assert_eq!(t.len(), 5);
    assert_eq!(t.len(), t.iter().len());
}

#[test]
fn removing_an_absent_key_changes_nothing() {
    let mut t = fruit();
    // The slot of "pear" is empty.
    assert_eq!(t.remove(&"pear"), None);
    assert_eq!(t.len(), 3);
    // The slot of "Hello" holds "orange".
    assert_eq!(t.remove(&"Hello"), None);
    assert_eq!(t.len(), 3);
    assert_eq!(t.get(&"orange"), Some(15));
    assert_eq!(t.iter(), vec![(&"orange", &15), (&"banana", &10), (&"apple", &5)]);
}

#[test]
fn removed_key_is_not_found() {
    let mut t: HashTable<&str, i32> = HashTable::new();
    t.insert("apple", 7);
    assert_eq!(t.remove(&"apple"), Some(7));
    assert_eq!(t.get(&"apple"), None);
    assert_eq!(t.len(), 0);
    assert!(t.iter().is_empty());
    assert_eq!(t.remove(&"apple"), None);
}

#[test]
fn removal_frees_the_slot() {
    let mut t: HashTable<&str, i32> = HashTable::new();
    t.insert("orange", 1);
    assert_eq!(t.remove(&"orange"), Some(1));
    t.insert("Hello", 2);
    assert_eq!(t.len(), 1);
    assert_eq!(t.get(&"Hello"), Some(2));
    assert_eq!(t.get(&"orange"), None);
}

#[test]
fn owned_strings_as_keys() {
    let mut t: HashTable<String, String> = HashTable::new();
    t.insert(String::from("apple"), String::from("red"));
    t.insert(String::from("banana"), String::from("yellow"));
    assert_eq!(t.get(&String::from("apple")), Some(String::from("red")));
    assert_eq!(t.hash(&String::from("apple")), 118);
    assert_eq!(t.remove(&String::from("banana")), Some(String::from("yellow")));
    assert_eq!(t.get(&String::from("banana")), None);
    assert_eq!(t.len(), 1);
}

#[test]
fn load_threshold_is_three_quarters() {
    assert!(!is_overloaded(0, 127));
    assert!(!is_overloaded(95, 127));
    assert!(is_overloaded(96, 127));
    assert!(!is_overloaded(3, 4));
    assert!(is_overloaded(4, 4));
    assert!(!is_overloaded(190, 254));
    assert!(is_overloaded(191, 254));
    assert!(!is_overloaded(usize::MAX / 4 * 3, usize::MAX));
    assert!(is_overloaded(usize::MAX, usize::MAX));
}

#[test]
fn next_capacity() {
    assert_eq!(DOUBLING_LIMIT, 1000);
    assert_eq!(grown_capacity(127), Some(254));
    assert_eq!(grown_capacity(254), Some(508));
    assert_eq!(grown_capacity(508), Some(1016));
    assert_eq!(grown_capacity(999), Some(1998));
    assert_eq!(grown_capacity(1000), Some(1600));
    assert_eq!(grown_capacity(1016), Some(1625));
    assert_eq!(grown_capacity(1625), Some(2600));
    assert_eq!(grown_capacity(2600), Some(4160));
    assert_eq!(grown_capacity(6656), Some(10649));
    assert_eq!(grown_capacity(usize::MAX / 8 * 5), Some(usize::MAX / 8 * 8));
    assert_eq!(grown_capacity(usize::MAX), None);
    assert_eq!(grown_capacity(usize::MAX / 8 * 5 + 5), None);
}

#[test]
fn table_grows_with_the_96th_entry() {
    let mut t: HashTable<String, usize> = HashTable::new();
    let next = fill(&mut t, 95, 0);
    assert_eq!(next, 235);
    assert_eq!(t.len(), 95);
    assert_eq!(t.capacity(), 127);
    assert_eq!(t.iter().len(), 95);
    let next = fill(&mut t, 96, next);
    assert_eq!(next, 236);
    assert_eq!(t.len(), 96);
    assert_eq!(t.capacity(), 254);
    // Keys with different slots among 127 have different slots among 254.
    assert_eq!(t.iter().len(), 96);
    assert_eq!(t.get(&key(0)), Some(0));
    assert_eq!(t.get(&key(235)), Some(235));
    let pairs = t.iter();
    for (k, _) in pairs.iter() {
        assert_eq!(t.get(k), Some(k[3..].parse::<usize>().unwrap()));
    }
    for pair in pairs.windows(2) {
        assert!(t.hash(pair[0].0) < t.hash(pair[1].0));
    }
}

#[test]
fn overwriting_never_grows_the_table() {
    let mut t: HashTable<String, usize> = HashTable::new();
    fill(&mut t, 95, 0);
    for n in 0..40 {
        let k = key(n);
        if !slot_is_free(&t, &k) {
            t.insert(k, 1000 + n);
        }
    }
    assert_eq!(t.len(), 95);
    assert_eq!(t.capacity(), 127);
}

#[test]
fn capacities_follow_the_growth_rule() {
    let mut t: HashTable<String, usize> = HashTable::new();
    let next = fill(&mut t, 190, 0);
    assert_eq!(t.capacity(), 254);
    let next = fill(&mut t, 191, next);
    assert_eq!(t.capacity(), 508);
    let next = fill(&mut t, 381, next);
    assert_eq!(t.capacity(), 508);
    let next = fill(&mut t, 382, next);
    assert_eq!(t.capacity(), 1016);
    assert_eq!(t.iter().len(), 382);
    let next = fill(&mut t, 762, next);
    assert_eq!(t.capacity(), 1016);
    assert_eq!(t.iter().len(), 762);
    assert_eq!(next, 2045);
    let next = fill(&mut t, 763, next);
    assert_eq!(next, 2046);
    assert_eq!(t.capacity(), 1625);
    assert_eq!(t.len(), 763);
}

#[test]
fn growth_past_1000_slots_can_lose_entries_and_keeps_the_count() {
    let mut t: HashTable<String, usize> = HashTable::new();
    fill(&mut t, 763, 0);
    assert_eq!(t.capacity(), 1625);
    // 166 pairs shared a slot among 1625 with a pair from a later slot.
    assert_eq!(t.len(), 763);
    assert_eq!(t.iter().len(), 597);
    assert_eq!(t.iter().iter().map(|(_, v)| **v).sum::<usize>(), 532852);
    assert_eq!(t.get(&key(1)), None);
    assert_eq!(t.get(&key(11)), Some(11));
    assert_eq!(t.iter()[0], (&key(11), &11));
    assert_eq!(t.iter()[1], (&key(465), &465));
    // Removing what is left lowers the count by one each time.
    assert_eq!(t.remove(&key(11)), Some(11));
    assert_eq!(t.len(), 762);
    assert_eq!(t.remove(&key(1)), None);
    assert_eq!(t.len(), 762);
}

#[test]
fn resize_places_every_pair_under_the_new_capacity() {
    let mut t = fruit();
    t.resize();
    assert_eq!(t.capacity(), 254);
    assert_eq!(t.len(), 3);
    assert_eq!(t.get(&"apple"), Some(5));
    assert_eq!(t.get(&"banana"), Some(10));
    assert_eq!(t.get(&"orange"), Some(15));
    // "apple" moved from slot 118 to slot 245.
    assert_eq!(t.iter(), vec![(&"orange", &15), (&"banana", &10), (&"apple", &5)]);
    t.resize();
    t.resize();
    assert_eq!(t.capacity(), 1016);
    t.resize();
    assert_eq!(t.capacity(), 1625);
    assert_eq!(t.get(&"apple"), Some(5));
    assert_eq!(t.len(), 3);
    assert_eq!(t.iter().len(), 3);
}
