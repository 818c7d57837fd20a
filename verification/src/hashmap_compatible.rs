//! The in-memory backend: a hash map that hands its values over and takes
//! them back.

use crate::cache::{CacheCompatible, CacheMutCompatible};
use std::collections::HashMap;
use vstd::prelude::*;

verus! {

/// The map does not hold the key.
#[derive(Debug, PartialEq, Eq)]
pub struct NotInMap;

impl<V> CacheCompatible<u64, V> for HashMap<u64, V> {
    type Error = NotInMap;

    type Model = V;

    open spec fn inv(&self) -> bool {
        true
    }

    open spec fn stored(&self) -> Map<u64, V> {
        self@
    }

    open spec fn model_of(v: V) -> V {
        v
    }

    open spec fn lends() -> bool {
        true
    }

    open spec fn serves(&self, k: u64) -> bool {
        self@.contains_key(k)
    }

    fn contains(&self, k: u64) -> (r: bool) {
        self.contains_key(&k)
    }

    fn get(&mut self, k: u64) -> (r: Result<V, NotInMap>) {
        match HashMap::<u64, V>::remove(self, &k) {
            Some(v) => Ok(v),
            None => Err(NotInMap),
        }
    }

    fn replace(&mut self, k: u64, v: V) {
        HashMap::<u64, V>::insert(self, k, v);
    }
}

impl<V> CacheMutCompatible<u64, V> for HashMap<u64, V> {
    open spec fn takes(&self, k: u64, m: V) -> bool {
        true
    }

    open spec fn drops(&self, k: u64) -> bool {
        true
    }

    open spec fn settles(&self) -> bool {
        true
    }

    fn insert(&mut self, k: u64, v: V) -> (r: Result<(), NotInMap>) {
        HashMap::<u64, V>::insert(self, k, v);
        Ok(())
    }

    fn remove(&mut self, k: u64) -> (r: Result<(), NotInMap>) {
        HashMap::<u64, V>::remove(self, &k);
        Ok(())
    }

    fn commit(&mut self) -> (r: Result<(), NotInMap>) {
        Ok(())
    }
}

} // verus!
