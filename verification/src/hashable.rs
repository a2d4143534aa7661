//! The hashing capability that table keys must have, and its
//! implementations for byte slices and strings.

use vstd::prelude::*;
use vstd::utf8::encode_utf8;
use crate::fnv::{digest, fnv1a, narrow, narrow_digest};

verus! {

/// A value with a hash: a machine word that depends on the value alone.
pub trait Hashable {
    /// The hash of the value.
    spec fn hash_value(&self) -> usize;

    /// Computes the hash of the value.
    fn hash(&self) -> (h: usize)
        ensures
            h == self.hash_value(),
    ;
}

impl Hashable for [u8] {
    /// The digest of the bytes, narrowed to the machine word.
    open spec fn hash_value(&self) -> usize {
        narrow(digest(self@))
    }

    fn hash(&self) -> (h: usize) {
        narrow_digest(fnv1a(self))
    }
}

impl Hashable for &str {
    /// The hash of the string's UTF-8 bytes.
    open spec fn hash_value(&self) -> usize {
        narrow(digest(encode_utf8(self@)))
    }

    fn hash(&self) -> (h: usize) {
        self.as_bytes().hash()
    }
}

impl Hashable for String {
    /// The hash of the string's UTF-8 bytes.
    open spec fn hash_value(&self) -> usize {
        narrow(digest(encode_utf8(self@)))
    }

    fn hash(&self) -> (h: usize) {
        self.as_str().as_bytes().hash()
    }
}

/// Byte slices with equal contents have equal hashes.
pub proof fn lemma_hash_deterministic(a: &[u8], b: &[u8])
    requires
        a@ == b@,
    ensures
        a.hash_value() == b.hash_value(),
{
}

/// A string slice hashes as the byte slice that holds its UTF-8 encoding.
pub proof fn lemma_str_hashes_as_bytes(s: &str, bytes: &[u8])
    requires
        bytes@ == encode_utf8(s@),
    ensures
        s.hash_value() == bytes.hash_value(),
{
}

/// An owned string hashes as the byte slice that holds its UTF-8 encoding,
/// and so as the string slice with the same characters.
pub proof fn lemma_string_hashes_as_bytes(s: String, t: &str, bytes: &[u8])
    requires
        bytes@ == encode_utf8(s@),
        t@ == s@,
    ensures
        s.hash_value() == bytes.hash_value(),
        s.hash_value() == t.hash_value(),
{
}

} // verus!
