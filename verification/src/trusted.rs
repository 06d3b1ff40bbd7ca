//! What this crate takes on trust from the standard library.
//!
//! Nothing here is proved. Each item states, for one function of `std` that
//! comes without a contract, what the rest of the crate relies on.

use std::collections::hash_map::DefaultHasher;
use std::hash::Hash;
use vstd::prelude::*;

verus! {

/// `core::mem::replace` moves `src` into `dest` and returns what `dest` held
/// before.
pub assume_specification<T>[ core::mem::replace::<T> ](dest: &mut T, src: T) -> (previous: T)
    ensures
        *final(dest) == src,
        previous == *old(dest),
;

/// `<str as PartialEq>::eq` compares two string slices by their characters.
pub assume_specification[ <str as PartialEq>::eq ](a: &str, b: &str) -> (equal: bool)
    ensures
        equal == (a@ == b@),
;

/// What a `DefaultHasher` has seen after `<i32 as Hash>::hash` fed `key` to
/// it, given what it had seen before. The standard library does not document
/// how an `i32` is fed; this name stands for what it does on the target that
/// the crate is built for.
pub uninterp spec fn i32_fed(seen: Seq<Seq<u8>>, key: i32) -> Seq<Seq<u8>>;

/// What a `DefaultHasher` has seen after `<u64 as Hash>::hash` fed `key` to
/// it, given what it had seen before; see [`i32_fed`].
pub uninterp spec fn u64_fed(seen: Seq<Seq<u8>>, key: u64) -> Seq<Seq<u8>>;

/// What a `DefaultHasher` has seen after `<str as Hash>::hash` fed a string
/// slice with the characters `key` to it, given what it had seen before. The
/// standard library does not document how a string slice is fed.
pub uninterp spec fn str_fed(seen: Seq<Seq<u8>>, key: Seq<char>) -> Seq<Seq<u8>>;

/// Calls `<i32 as Hash>::hash` on a `DefaultHasher`. Claims that what the
/// hasher has seen afterwards depends only on what it had seen before and on
/// the key's value.
#[verifier::external_body]
pub(crate) fn feed_i32(key: &i32, state: &mut DefaultHasher)
    ensures
        final(state)@ == i32_fed(old(state)@, *key),
{
    key.hash(state)
}

/// Calls `<u64 as Hash>::hash` on a `DefaultHasher`. Claims that what the
/// hasher has seen afterwards depends only on what it had seen before and on
/// the key's value.
#[verifier::external_body]
pub(crate) fn feed_u64(key: &u64, state: &mut DefaultHasher)
    ensures
        final(state)@ == u64_fed(old(state)@, *key),
{
    key.hash(state)
}

/// Calls `<str as Hash>::hash` on a `DefaultHasher`. Claims that what the
/// hasher has seen afterwards depends only on what it had seen before and on
/// the characters of the string slice.
#[verifier::external_body]
pub(crate) fn feed_str(key: &str, state: &mut DefaultHasher)
    ensures
        final(state)@ == str_fed(old(state)@, key@),
{
    key.hash(state)
}

} // verus!
