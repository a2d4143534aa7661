use hashtable::fnv::{fnv1a, mix_byte, narrow_digest, FNV_OFFSET_BASIS, FNV_PRIME, MOD};
use hashtable::hashable::Hashable;

#[test]
fn constants_have_their_values() {
    assert_eq!(FNV_OFFSET_BASIS, 0x811C9DC5);
    assert_eq!(FNV_PRIME, 0x100000001B3);
    assert_eq!(MOD, u64::MAX);
}

#[test]
fn empty_input_hashes_to_offset_basis() {
    let empty: &[u8] = b"";
    assert_eq!(fnv1a(empty), 0x811C9DC5);
    assert_eq!(fnv1a(empty), FNV_OFFSET_BASIS % MOD);
    assert_eq!(empty.hash(), 0x811C9DC5usize);
    assert_eq!("".hash(), 0x811C9DC5usize);
    assert_eq!(String::new().hash(), 0x811C9DC5usize);
}

#[test]
fn known_digests() {
    assert_eq!(fnv1a(b"a"), 2061985466581769644);
    assert_eq!(fnv1a(b"apple"), 11097564290507344607);
    assert_eq!(fnv1a(b"banana"), 13026189925836106032);
    assert_eq!(fnv1a(b"orange"), 4485461825395943051);
    assert_eq!(fnv1a(b"hello"), 7172041315548034347);
    assert_eq!(fnv1a(b"HelloWorld"), 13669126083749342689);
    assert_eq!(fnv1a("h\u{e9}llo".as_bytes()), 9914677095228714560);
}

#[test]
fn digest_is_not_the_product_modulo_two_to_the_64() {
    // With the upper halves of both factors in the shifted sum, the round
    // differs from a plain multiplication that drops the overflow.
    let mut plain: u64 = FNV_OFFSET_BASIS;
    for b in b"apple" {
        plain = (plain ^ (*b as u64)).wrapping_mul(FNV_PRIME) % MOD;
    }
    assert_eq!(plain, 189817405713681119);
    assert_ne!(fnv1a(b"apple"), plain);
    // On a single byte the upper half of the accumulator is still zero.
    assert_eq!(fnv1a(b"a"), (FNV_OFFSET_BASIS ^ 0x61).wrapping_mul(FNV_PRIME) % MOD);
}

#[test]
fn one_round_exact_values() {
    assert_eq!(mix_byte(0, 0), 0);
    assert_eq!(mix_byte(FNV_OFFSET_BASIS, 0x61), 2061985466581769644);
    assert_eq!(mix_byte(FNV_OFFSET_BASIS, 0x61), fnv1a(b"a"));
    assert_eq!(mix_byte(fnv1a(b"appl"), b'e'), fnv1a(b"apple"));
}

#[test]
fn round_whose_sum_is_the_modulus_reduces_to_zero() {
    // The sum of this round is 2^64 - 1 exactly, which the modulus takes
    // to zero; a reduction modulo 2^64 would leave it.
    assert_eq!(mix_byte(15322362659513920133, 0), 0);
    assert_eq!(mix_byte(15322362659513920133 ^ 0x5a, 0x5a), 0);
}

#[test]
fn round_whose_sum_exceeds_64_bits_wraps() {
    assert_eq!(mix_byte(17432306634146709503, 0), 1864015806029);
    assert_eq!(mix_byte(17432306634146709503 ^ 0x41, 0x41), 1864015806029);
}

#[test]
fn hash_is_deterministic() {
    let first: Vec<u8> = vec![1, 2, 3, 250, 0, 7];
    let second: Vec<u8> = vec![1, 2, 3, 250, 0, 7];
    assert_eq!(first.as_slice().hash(), first.as_slice().hash());
    assert_eq!(first.as_slice().hash(), second.as_slice().hash());
    assert_eq!(fnv1a(&first), fnv1a(&second));
    assert_eq!("banana".hash(), "banana".hash());
    let other: Vec<u8> = vec![1, 2, 3, 250, 0, 8];
    assert_ne!(fnv1a(&first), fnv1a(&other));
}

#[test]
fn strings_hash_as_their_bytes() {
    assert_eq!("apple".hash(), "apple".as_bytes().hash());
    assert_eq!(String::from("apple").hash(), "apple".as_bytes().hash());
    assert_eq!(String::from("orange").hash(), "orange".hash());
    assert_eq!("h\u{e9}llo".hash(), [0x68u8, 0xc3, 0xa9, 0x6c, 0x6c, 0x6f].as_slice().hash());
    assert_eq!("apple".hash() as u64, 11097564290507344607 & (usize::MAX as u64));
}

#[test]
fn order_of_bytes_matters() {
    assert_ne!(fnv1a(b"ab"), fnv1a(b"ba"));
    assert_ne!(fnv1a(b"a"), fnv1a(b"a\0"));
}

#[test]
fn narrowing_keeps_the_low_bits_of_the_word() {
    assert_eq!(narrow_digest(0), 0);
    assert_eq!(narrow_digest(0x811C9DC5), 0x811C9DC5usize);
    assert_eq!(narrow_digest(u64::MAX), usize::MAX);
    assert_eq!(narrow_digest(11097564290507344607) as u64, 11097564290507344607 & (usize::MAX as u64));
    assert_eq!(b"banana".as_slice().hash(), narrow_digest(fnv1a(b"banana")));
}
