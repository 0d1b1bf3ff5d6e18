//! The errors the cache operations return.

use vstd::prelude::*;

verus! {

/// An error returned by a cache operation, carrying the offending key.
///
/// Both kinds are recoverable and part of normal cache usage: a duplicate
/// insertion may be treated as a logical no-op by the caller, and a failed
/// lookup signals a cache miss.
#[derive(Debug, PartialEq, Eq)]
pub enum MyError<K> {
    /// An insertion found the key already present; the cache was left unchanged.
    DuplicateKey(K),
    /// A lookup found no entry for the key.
    KeyNotFound(K),
}

impl<K> MyError<K> {
    /// A short description of the error kind.
    pub fn message(&self) -> (s: &'static str)
        ensures
            s@ == match self {
                MyError::DuplicateKey(_) => "the key is already present"@,
                MyError::KeyNotFound(_) => "the key is not present"@,
            },
    {
        match self {
            MyError::DuplicateKey(_) => "the key is already present",
            MyError::KeyNotFound(_) => "the key is not present",
        }
    }

    /// The key the failing operation was called with.
    pub fn key(&self) -> (k: &K)
        ensures
            *k == match self {
                MyError::DuplicateKey(key) => key,
                MyError::KeyNotFound(key) => key,
            },
    {
        match self {
            MyError::DuplicateKey(key) => key,
            MyError::KeyNotFound(key) => key,
        }
    }
}

} // verus!
