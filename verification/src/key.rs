//! What a type must offer to serve as a key: a hash that depends on nothing
//! but the key's value, and a test for equal values.
//!
//! The keys defined here hash as the standard library hashes them, with a
//! `DefaultHasher` that starts afresh for each key.

use crate::trusted::{feed_i32, feed_str, feed_u64, i32_fed, str_fed, u64_fed};
use std::collections::hash_map::DefaultHasher;
use std::hash::Hasher;
use vstd::prelude::*;
use vstd::std_specs::hash::DefaultHasherAdditionalSpecFns;

verus! {

/// A key of a map. Two keys are the same key when their views are equal, and
/// the hash of a key is a function of its view.
pub trait Key: View + Sized {
    /// The hash of every key with the view `v`.
    spec fn hash_spec(v: Self::V) -> u64;

    /// Computes the key's hash.
    fn hash_code(&self) -> (h: u64)
        ensures
            h == Self::hash_spec(self@),
    ;

    /// Tells whether two keys are the same key.
    fn same(&self, other: &Self) -> (equal: bool)
        ensures
            equal == (self@ == other@),
    ;
}

/// What a new `DefaultHasher` has seen: nothing.
pub open spec fn nothing_seen() -> Seq<Seq<u8>> {
    Seq::empty()
}

impl Key for i32 {
    open spec fn hash_spec(v: i32) -> u64 {
        DefaultHasher::spec_finish(i32_fed(nothing_seen(), v))
    }

    fn hash_code(&self) -> (h: u64) {
        let mut hasher = DefaultHasher::new();
        feed_i32(self, &mut hasher);
        hasher.finish()
    }

    fn same(&self, other: &Self) -> (equal: bool) {
        *self == *other
    }
}

impl Key for u64 {
    open spec fn hash_spec(v: u64) -> u64 {
        DefaultHasher::spec_finish(u64_fed(nothing_seen(), v))
    }

    fn hash_code(&self) -> (h: u64) {
        let mut hasher = DefaultHasher::new();
        feed_u64(self, &mut hasher);
        hasher.finish()
    }

    fn same(&self, other: &Self) -> (equal: bool) {
        *self == *other
    }
}

impl Key for String {
    open spec fn hash_spec(v: Seq<char>) -> u64 {
        DefaultHasher::spec_finish(str_fed(nothing_seen(), v))
    }

    fn hash_code(&self) -> (h: u64) {
        let mut hasher = DefaultHasher::new();
        feed_str(self.as_str(), &mut hasher);
        hasher.finish()
    }

    fn same(&self, other: &Self) -> (equal: bool) {
        *self == *other
    }
}

impl<'a> Key for &'a str {
    open spec fn hash_spec(v: Seq<char>) -> u64 {
        DefaultHasher::spec_finish(str_fed(nothing_seen(), v))
    }

    fn hash_code(&self) -> (h: u64) {
        let mut hasher = DefaultHasher::new();
        feed_str(*self, &mut hasher);
        hasher.finish()
    }

    fn same(&self, other: &Self) -> (equal: bool) {
        str::eq(*self, *other)
    }
}

} // verus!
