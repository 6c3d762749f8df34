use std::hash::{DefaultHasher, Hasher};
use vstd::prelude::*;
use vstd::std_specs::hash::DefaultHasherAdditionalSpecFns;
use vstd::utf8::encode_utf8;

verus! {

/// A type whose values can be keys of a table. Two keys are the same key
/// exactly when their views are equal.
pub trait TableKey: View + Sized {
    /// Whether `self` and `other` are the same key.
    fn same_key(&self, other: &Self) -> (same: bool)
        ensures
            same == (self@ == other@),
    ;
}

/// A hash algorithm for keys of type `K`. The hash of a key depends on its
/// view alone, so that a key is looked for where it was stored.
pub trait KeyHasher<K: View> {
    /// The hash of the key whose view is `key`.
    spec fn hash_of(key: K::V) -> u64;

    /// Computes the hash of `key`.
    fn hash(key: &K) -> (h: u64)
        ensures
            h == Self::hash_of(key@),
    ;
}

impl TableKey for String {
    fn same_key(&self, other: &Self) -> (same: bool) {
        *self == *other
    }
}

impl TableKey for u32 {
    fn same_key(&self, other: &Self) -> (same: bool) {
        *self == *other
    }
}

impl TableKey for u64 {
    fn same_key(&self, other: &Self) -> (same: bool) {
        *self == *other
    }
}

impl TableKey for usize {
    fn same_key(&self, other: &Self) -> (same: bool) {
        *self == *other
    }
}

/// The eight bytes of `x`, least significant first.
pub open spec fn le_bytes(x: u64) -> Seq<u8> {
    seq![
        (x & 0xff) as u8,
        ((x >> 8) & 0xff) as u8,
        ((x >> 16) & 0xff) as u8,
        ((x >> 24) & 0xff) as u8,
        ((x >> 32) & 0xff) as u8,
        ((x >> 40) & 0xff) as u8,
        ((x >> 48) & 0xff) as u8,
        ((x >> 56) & 0xff) as u8,
    ]
}

/// What the standard hasher returns after it was fed the eight bytes of `x`.
pub open spec fn hash_of_u64(x: u64) -> u64 {
    DefaultHasher::spec_finish(seq![le_bytes(x)])
}

/// Feeds the eight bytes of `x` to a fresh standard hasher.
pub fn hash_u64(x: u64) -> (h: u64)
    ensures
        h == hash_of_u64(x),
{
    let bytes: [u8; 8] = [
        (x & 0xff) as u8,
        ((x >> 8) & 0xff) as u8,
        ((x >> 16) & 0xff) as u8,
        ((x >> 24) & 0xff) as u8,
        ((x >> 32) & 0xff) as u8,
        ((x >> 40) & 0xff) as u8,
        ((x >> 48) & 0xff) as u8,
        ((x >> 56) & 0xff) as u8,
    ];
    let mut state = DefaultHasher::new();
    state.write(bytes.as_slice());
    assert(bytes@ =~= le_bytes(x));
    assert(state@ =~= seq![le_bytes(x)]);
    state.finish()
}

impl KeyHasher<String> for DefaultHasher {
    /// The hash of a string: its UTF-8 bytes, then the byte `0xff`.
    open spec fn hash_of(key: Seq<char>) -> u64 {
        DefaultHasher::spec_finish(seq![encode_utf8(key), seq![0xffu8]])
    }

    fn hash(key: &String) -> (h: u64) {
        let end: [u8; 1] = [0xffu8];
        let mut state = DefaultHasher::new();
        state.write(key.as_str().as_bytes());
        state.write(end.as_slice());
        assert(end@ =~= seq![0xffu8]);
        assert(state@ =~= seq![encode_utf8(key@), seq![0xffu8]]);
        state.finish()
    }
}

impl KeyHasher<u32> for DefaultHasher {
    open spec fn hash_of(key: u32) -> u64 {
        hash_of_u64(key as u64)
    }

    fn hash(key: &u32) -> (h: u64) {
        hash_u64(*key as u64)
    }
}

impl KeyHasher<u64> for DefaultHasher {
    open spec fn hash_of(key: u64) -> u64 {
        hash_of_u64(key)
    }

    fn hash(key: &u64) -> (h: u64) {
        hash_u64(*key)
    }
}

impl KeyHasher<usize> for DefaultHasher {
    open spec fn hash_of(key: usize) -> u64 {
        hash_of_u64(key as u64)
    }

    fn hash(key: &usize) -> (h: u64) {
        hash_u64(*key as u64)
    }
}

} // verus!
