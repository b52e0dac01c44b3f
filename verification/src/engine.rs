//! The storage engine, and what every engine offers.

use vstd::prelude::*;
use crate::error::KVStoreError;

pub mod model;
pub mod kv;

verus! {

/// A store of string keys and string values. What an engine holds, and
/// when it fails, is its own affair: `KvStore` says it of itself, in what
/// its impl of this trait ensures.
pub trait KvsEngine {
    /// The engine is in order. Every operation needs it and keeps it. An
    /// engine that says nothing of itself is always in order.
    open spec fn inv(&self) -> bool {
        true
    }

    /// Stores `value` under `key`.
    fn set(&mut self, key: String, value: String) -> (r: Result<(), KVStoreError>)
        requires
            old(self).inv(),
        ensures
            final(self).inv(),
    ;

    /// The value under `key`, if there is one.
    fn get(&mut self, key: String) -> (r: Result<Option<String>, KVStoreError>)
        requires
            old(self).inv(),
        ensures
            final(self).inv(),
    ;

    /// Removes `key`.
    fn remove(&mut self, key: String) -> (r: Result<(), KVStoreError>)
        requires
            old(self).inv(),
        ensures
            final(self).inv(),
    ;
}

} // verus!
