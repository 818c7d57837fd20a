//! The cache over a backend: pinned active entries, a bounded list of
//! inactive ones in order of use, and write-back when an entry leaves.

use crate::recency::{
    drop_key, flag_of, keys_of, lemma_entry_pushed, lemma_entry_removed, lemma_keys_absent,
    lemma_keys_pushed, lemma_keys_removed, lemma_place, listed, lru_cap, lru_contains, lru_entries,
    lru_limit, lru_new, lru_pop, lru_pop_lru, lru_push, place_of, unique, MAX_CAPACITY,
};
use lru::LruCache;
use std::collections::HashMap;
use vstd::prelude::*;

verus! {

/// A store that the cache can read from. `stored` is what the store holds,
/// each value seen through `model_of`. The functions that only contracts use
/// are left open here: a store says what they are, and one that does not
/// leaves them unknown.
pub trait CacheCompatible<K, V> {
    /// Why the store could not do what was asked.
    type Error;

    /// What a value is to the contracts.
    type Model;

    /// The store is well-formed.
    open spec fn inv(&self) -> bool {
        arbitrary()
    }

    /// What the store holds.
    open spec fn stored(&self) -> Map<K, Self::Model> {
        arbitrary()
    }

    /// What `v` is to the contracts.
    open spec fn model_of(v: V) -> Self::Model {
        arbitrary()
    }

    /// Whether `get` hands the value over, so that the store no longer holds
    /// the key until `replace` or `insert` brings it back.
    open spec fn lends() -> bool {
        arbitrary()
    }

    /// `get` succeeds for `k`. It never does for a key that the store does
    /// not hold.
    open spec fn serves(&self, k: K) -> bool {
        arbitrary()
    }

    /// Whether the store holds `k`.
    fn contains(&self, k: K) -> (r: bool)
        requires
            self.inv(),
        ensures
            r == self.stored().contains_key(k),
    ;

    /// The value under `k`. A store that lends no longer holds `k` afterwards;
    /// any other store is unchanged. A failure changes nothing, and a key
    /// that the store does not hold always fails.
    fn get(&mut self, k: K) -> (r: Result<V, Self::Error>)
        requires
            old(self).inv(),
        ensures
            final(self).inv(),
            r is Ok <==> old(self).serves(k),
            match r {
                Ok(v) => {
                    &&& old(self).stored().contains_key(k)
                    &&& Self::model_of(v) == old(self).stored()[k]
                    &&& final(self).stored() == (if Self::lends() {
                        old(self).stored().remove(k)
                    } else {
                        old(self).stored()
                    })
                },
                Err(_) => final(self).stored() == old(self).stored(),
            },
    ;

    /// Takes back a value that `get` gave and that has not changed since. A
    /// store that does not lend still holds it and may do nothing.
    fn replace(&mut self, k: K, v: V)
        requires
            old(self).inv(),
            !Self::lends() ==> old(self).stored().contains_key(k) && old(self).stored()[k]
                == Self::model_of(v),
        ensures
            final(self).inv(),
            final(self).stored() == old(self).stored().insert(k, Self::model_of(v)),
    ;
}

/// A store that the cache can also write to.
pub trait CacheMutCompatible<K, V>: CacheCompatible<K, V> {
    /// `insert` succeeds for `k` and a value that the contracts see as `m`.
    open spec fn takes(&self, k: K, m: Self::Model) -> bool {
        arbitrary()
    }

    /// `remove` succeeds for `k`.
    open spec fn drops(&self, k: K) -> bool {
        arbitrary()
    }

    /// `commit` succeeds.
    open spec fn settles(&self) -> bool {
        arbitrary()
    }

    /// Stores `v` under `k`, in place of what was there. A failure changes
    /// nothing.
    fn insert(&mut self, k: K, v: V) -> (r: Result<(), Self::Error>)
        requires
            old(self).inv(),
        ensures
            final(self).inv(),
            r is Ok <==> old(self).takes(k, Self::model_of(v)),
            match r {
                Ok(()) => final(self).stored() == old(self).stored().insert(k, Self::model_of(v)),
                Err(_) => final(self).stored() == old(self).stored(),
            },
    ;

    /// Removes `k` and its value, if the store holds it. A failure changes
    /// nothing.
    fn remove(&mut self, k: K) -> (r: Result<(), Self::Error>)
        requires
            old(self).inv(),
        ensures
            final(self).inv(),
            r is Ok <==> old(self).drops(k),
            match r {
                Ok(()) => final(self).stored() == old(self).stored().remove(k),
                Err(_) => final(self).stored() == old(self).stored(),
            },
    ;

    /// Brings the store to a stable state. What it holds does not change.
    fn commit(&mut self) -> (r: Result<(), Self::Error>)
        requires
            old(self).inv(),
        ensures
            final(self).inv(),
            r is Ok <==> old(self).settles(),
            final(self).stored() == old(self).stored(),
    ;
}

/// An active entry as the cache holds it: whether it was modified, how many
/// shared handles are out, and the value, which is away while an exclusive
/// handle is out.
pub struct Pinned<V> {
    dirty: bool,
    readers: usize,
    value: Option<V>,
}

/// An active entry as the contracts see it.
pub struct Pin<M> {
    /// The entry was modified since the backend last had it.
    pub dirty: bool,
    /// Number of shared handles that are out.
    pub readers: nat,
    /// The value; `None` while an exclusive handle is out.
    pub value: Option<M>,
}

/// An inactive entry as the contracts see it.
pub struct Idle<M> {
    /// The entry was modified since the backend last had it.
    pub dirty: bool,
    /// The value.
    pub value: M,
}

/// The state of the cache: the backend, the inactive entries in order of
/// use, and the active entries.
pub struct CacheMutBase<V, CC: CacheMutCompatible<u64, V>> {
    compatible: CC,
    lru: LruCache<u64, bool>,
    parked: HashMap<u64, V>,
    active: HashMap<u64, Pinned<V>>,
}

impl<V, CC: CacheMutCompatible<u64, V>> CacheMutBase<V, CC> {
    /// The backend.
    pub closed spec fn backend(&self) -> CC {
        self.compatible
    }

    /// The number of inactive entries that the cache keeps at most.
    pub closed spec fn limit(&self) -> nat {
        lru_limit(self.lru)
    }

    /// The active entries.
    pub closed spec fn pins(&self) -> Map<u64, Pin<CC::Model>> {
        Map::new(
            |k: u64| self.active@.contains_key(k),
            |k: u64|
                Pin {
                    dirty: self.active@[k].dirty,
                    readers: self.active@[k].readers as nat,
                    value: match self.active@[k].value {
                        Some(v) => Some(CC::model_of(v)),
                        None => None,
                    },
                },
        )
    }

    /// The inactive entries.
    pub closed spec fn idle(&self) -> Map<u64, Idle<CC::Model>> {
        Map::new(
            |k: u64| self.parked@.contains_key(k),
            |k: u64|
                Idle {
                    dirty: flag_of(lru_entries(self.lru), k),
                    value: CC::model_of(self.parked@[k]),
                },
        )
    }

    /// The keys of the inactive entries, the most recently used first.
    pub closed spec fn order(&self) -> Seq<u64> {
        keys_of(lru_entries(self.lru))
    }

    /// What the backend must hold for a cached entry: nothing under the key
    /// where it lends; the key where it does not, and the cached value too
    /// while that is unmodified.
    pub open spec fn coherent(stored: Map<u64, CC::Model>, k: u64, dirty: bool, value: Option<CC::Model>) -> bool {
        if CC::lends() {
            !stored.contains_key(k)
        } else {
            stored.contains_key(k) && (!dirty && value is Some ==> stored[k] == value->Some_0)
        }
    }

    /// The cache is well-formed: the backend is; no key is both active and
    /// inactive; the inactive entries are as many as the order lists, each
    /// key once, and no more than the limit; an entry whose value is away is
    /// marked modified; and the backend holds what it must for each entry.
    pub closed spec fn wf(&self) -> bool {
        let entries = lru_entries(self.lru);
        let stored = self.compatible.stored();
        &&& self.compatible.inv()
        &&& unique(entries)
        &&& forall|k: u64| #[trigger] self.parked@.contains_key(k) <==> listed(entries, k)
        &&& forall|k: u64| !(#[trigger] self.active@.contains_key(k) && self.parked@.contains_key(k))
        &&& 1 <= lru_limit(self.lru)
        &&& entries.len() <= lru_limit(self.lru)
        &&& forall|k: u64|
            #[trigger] self.active@.contains_key(k) && self.active@[k].value is None
                ==> self.active@[k].readers == 0 && self.active@[k].dirty
        &&& forall|k: u64|
            #[trigger] self.pins().contains_key(k) ==> Self::coherent(
                stored,
                k,
                self.pins()[k].dirty,
                self.pins()[k].value,
            )
        &&& forall|k: u64|
            #[trigger] self.idle().contains_key(k) ==> Self::coherent(
                stored,
                k,
                self.idle()[k].dirty,
                Some(self.idle()[k].value),
            )
    }

    /// What the cache holds as a whole: under each key the value of its
    /// entry or, without an entry, the value that the backend has. A key
    /// whose value is away with an exclusive handle is not in it.
    pub open spec fn contents(&self) -> Map<u64, CC::Model> {
        Map::new(
            |k: u64|
                if self.pins().contains_key(k) {
                    self.pins()[k].value is Some
                } else {
                    self.idle().contains_key(k) || self.backend().stored().contains_key(k)
                },
            |k: u64|
                if self.pins().contains_key(k) {
                    self.pins()[k].value->Some_0
                } else if self.idle().contains_key(k) {
                    self.idle()[k].value
                } else {
                    self.backend().stored()[k]
                },
        )
    }

    /// A handle is out for `k`.
    pub open spec fn locked(&self, k: u64) -> bool {
        self.pins().contains_key(k) && (self.pins()[k].readers > 0 || self.pins()[k].value is None)
    }

    /// A cache over `compatible` that keeps at most `capacity` inactive
    /// entries, with no entry yet.
    pub fn new(compatible: CC, capacity: usize) -> (r: Self)
        requires
            1 <= capacity <= MAX_CAPACITY,
            compatible.inv(),
        ensures
            r.wf(),
            r.backend() == compatible,
            r.limit() == capacity,
            r.pins() == Map::<u64, Pin<CC::Model>>::empty(),
            r.idle() == Map::<u64, Idle<CC::Model>>::empty(),
            r.order() == Seq::<u64>::empty(),
            r.contents() == compatible.stored(),
    {
        broadcast use vstd::std_specs::hash::group_hash_axioms;

        let r = Self {
            compatible,
            lru: lru_new(capacity),
            parked: HashMap::new(),
            active: HashMap::new(),
        };
        proof {
            assert(r.pins() =~= Map::<u64, Pin<CC::Model>>::empty());
            assert(r.idle() =~= Map::<u64, Idle<CC::Model>>::empty());
            assert(r.order() =~= Seq::<u64>::empty());
            assert(r.contents() =~= compatible.stored());
        }
        r
    }

    /// The number of inactive entries that the cache keeps at most.
    pub fn cap(&self) -> (r: usize)
        ensures
            r == self.limit(),
    {
        lru_cap(&self.lru)
    }

    /// Whether `k` is active.
    pub fn active(&self, k: &u64) -> (r: bool)
        ensures
            r == self.pins().contains_key(*k),
    {
        broadcast use vstd::std_specs::hash::group_hash_axioms;

        self.active.contains_key(k)
    }

    /// The number of active entries.
    pub fn num_active(&self) -> (r: usize)
        ensures
            r == self.pins().dom().len(),
    {
        broadcast use vstd::std_specs::hash::group_hash_axioms;

        proof {
            assert(self.pins().dom() =~= self.active@.dom());
        }
        self.active.len()
    }

    /// Whether the backend or an entry has `k`.
    pub fn contains(&self, k: &u64) -> (r: bool)
        requires
            self.wf(),
        ensures
            r == (self.backend().stored().contains_key(*k) || self.pins().contains_key(*k)
                || self.idle().contains_key(*k)),
    {
        broadcast use vstd::std_specs::hash::group_hash_axioms;

        self.compatible.contains(*k) || self.active.contains_key(k) || lru_contains(&self.lru, k)
    }

    /// Whether the value of `k` is away with an exclusive handle.
    pub fn is_exclusive(&self, k: &u64) -> (r: bool)
        ensures
            r == (self.pins().contains_key(*k) && self.pins()[*k].value is None),
    {
        broadcast use vstd::std_specs::hash::group_hash_axioms;

        match self.active.get(k) {
            Some(pin) => pin.value.is_none(),
            None => false,
        }
    }

    /// Whether a handle is out for `k`.
    pub fn is_locked(&self, k: &u64) -> (r: bool)
        ensures
            r == self.locked(*k),
    {
        broadcast use vstd::std_specs::hash::group_hash_axioms;

        match self.active.get(k) {
            Some(pin) => pin.readers > 0 || pin.value.is_none(),
            None => false,
        }
    }
    /// The active entry that `k` has once a shared handle was taken.
    pub open spec fn shared(&self, k: u64) -> Pin<CC::Model> {
        if self.pins().contains_key(k) {
            Pin {
                dirty: self.pins()[k].dirty,
                readers: self.pins()[k].readers + 1,
                value: self.pins()[k].value,
            }
        } else if self.idle().contains_key(k) {
            Pin { dirty: self.idle()[k].dirty, readers: 1, value: Some(self.idle()[k].value) }
        } else {
            Pin { dirty: false, readers: 1, value: Some(self.backend().stored()[k]) }
        }
    }

    /// What the backend holds once `k` was fetched from it.
    pub open spec fn fetched(&self, k: u64) -> Map<u64, CC::Model> {
        if CC::lends() {
            self.backend().stored().remove(k)
        } else {
            self.backend().stored()
        }
    }

    /// `k` has an entry, active or inactive.
    pub open spec fn cached(&self, k: u64) -> bool {
        self.pins().contains_key(k) || self.idle().contains_key(k)
    }

    /// Makes `k` active for one more shared handle: an active entry counts
    /// one more; an inactive entry becomes active; a key without an entry is
    /// fetched from the backend, and the failure of the backend is returned
    /// as it is. What the cache holds as a whole does not change.
    pub fn get(&mut self, k: &u64) -> (r: Result<(), CC::Error>)
        requires
            old(self).wf(),
            old(self).pins().contains_key(*k) ==> old(self).pins()[*k].value is Some && old(self).pins()[*k].readers < usize::MAX,
        ensures
            final(self).wf(),
            final(self).limit() == old(self).limit(),
            final(self).contents() == old(self).contents(),
            r is Ok <==> old(self).cached(*k) || old(self).backend().serves(*k),
            match r {
                Ok(()) => {
                    &&& final(self).pins() == old(self).pins().insert(*k, old(self).shared(*k))
                    &&& final(self).idle() == old(self).idle().remove(*k)
                    &&& final(self).order() == drop_key(old(self).order(), *k)
                    &&& final(self).backend().stored() == (if old(self).cached(*k) {
                        old(self).backend().stored()
                    } else {
                        old(self).fetched(*k)
                    })
                },
                Err(_) => {
                    &&& final(self).pins() == old(self).pins()
                    &&& final(self).idle() == old(self).idle()
                    &&& final(self).order() == old(self).order()
                    &&& final(self).backend().stored() == old(self).backend().stored()
                },
            },
    {
        broadcast use vstd::std_specs::hash::group_hash_axioms;

        let ghost before = *self;
        let ghost entries = lru_entries(self.lru);
        if self.active.contains_key(k) {
            let mut pin = self.active.remove(k).unwrap();
            pin.readers = pin.readers + 1;
            self.active.insert(*k, pin);
            proof {
                assert(self.pins() =~= before.pins().insert(*k, before.shared(*k)));
                assert(self.idle() =~= before.idle().remove(*k));
                assert(!listed(entries, *k));
                lemma_keys_absent(entries, *k);
                assert(self.contents() =~= before.contents());
            }
            Ok(())
        } else if let Some(flag) = lru_pop(&mut self.lru, k) {
            let ghost i = choose|i: int|
                0 <= i < entries.len() && #[trigger] entries[i] == (*k, flag) && lru_entries(self.lru)
                    == entries.remove(i);
            proof {
                lemma_place(entries, i);
                lemma_entry_removed(entries, i);
                lemma_keys_removed(entries, i);
            }
            let v = self.parked.remove(k).unwrap();
            self.active.insert(*k, Pinned { dirty: flag, readers: 1, value: Some(v) });
            proof {
                assert(self.pins() =~= before.pins().insert(*k, before.shared(*k)));
                assert(self.idle() =~= before.idle().remove(*k));
                assert(self.contents() =~= before.contents());
                assert(before.idle().contains_key(*k));
                assert forall|x: u64| #[trigger] self.pins().contains_key(x) implies Self::coherent(
                    self.compatible.stored(),
                    x,
                    self.pins()[x].dirty,
                    self.pins()[x].value,
                ) by {
                    if x != *k {
                        assert(before.pins().contains_key(x));
                    }
                }
                assert forall|x: u64| #[trigger] self.idle().contains_key(x) implies Self::coherent(
                    self.compatible.stored(),
                    x,
                    self.idle()[x].dirty,
                    Some(self.idle()[x].value),
                ) by {
                    assert(before.idle().contains_key(x));
                }
            }
            Ok(())
        } else {
            proof {
                lemma_keys_absent(entries, *k);
            }
            let v = match self.compatible.get(*k) {
                Ok(v) => v,
                Err(e) => {
                    proof {
                        assert(self.pins() =~= before.pins());
                        assert(self.idle() =~= before.idle());
                        assert(self.contents() =~= before.contents());
                        assert forall|x: u64| #[trigger] self.pins().contains_key(x) implies Self::coherent(
                            self.compatible.stored(),
                            x,
                            self.pins()[x].dirty,
                            self.pins()[x].value,
                        ) by {
                            assert(before.pins().contains_key(x));
                        }
                        assert forall|x: u64| #[trigger] self.idle().contains_key(x) implies Self::coherent(
                            self.compatible.stored(),
                            x,
                            self.idle()[x].dirty,
                            Some(self.idle()[x].value),
                        ) by {
                            assert(before.idle().contains_key(x));
                        }
                    }
                    return Err(e);
                },
            };
            self.active.insert(*k, Pinned { dirty: false, readers: 1, value: Some(v) });
            proof {
                assert(self.pins() =~= before.pins().insert(*k, before.shared(*k)));
                assert(self.idle() =~= before.idle().remove(*k));
                assert(self.contents() =~= before.contents());
                assert forall|x: u64| #[trigger] self.pins().contains_key(x) implies Self::coherent(
                    self.compatible.stored(),
                    x,
                    self.pins()[x].dirty,
                    self.pins()[x].value,
                ) by {
                    if x != *k {
                        assert(before.pins().contains_key(x));
                    }
                }
                assert forall|x: u64| #[trigger] self.idle().contains_key(x) implies Self::coherent(
                    self.compatible.stored(),
                    x,
                    self.idle()[x].dirty,
                    Some(self.idle()[x].value),
                ) by {
                    assert(before.idle().contains_key(x));
                }
            }
            Ok(())
        }
    }
    /// The active entry of a key whose value is away with an exclusive
    /// handle.
    pub open spec fn exclusive() -> Pin<CC::Model> {
        Pin { dirty: true, readers: 0, value: None }
    }

    /// Makes `k` active for an exclusive handle and hands its value out: an
    /// inactive entry becomes active; a key without an entry is fetched from
    /// the backend, and the failure of the backend is returned as it is.
    /// The entry is marked modified. The value is no longer part of what the
    /// cache holds until it is brought back.
    pub fn get_mut(&mut self, k: &u64) -> (r: Result<V, CC::Error>)
        requires
            old(self).wf(),
            !old(self).pins().contains_key(*k),
        ensures
            final(self).wf(),
            final(self).limit() == old(self).limit(),
            r is Ok <==> old(self).cached(*k) || old(self).backend().serves(*k),
            match r {
                Ok(v) => {
                    &&& old(self).contents().contains_key(*k)
                    &&& CC::model_of(v) == old(self).contents()[*k]
                    &&& final(self).contents() == old(self).contents().remove(*k)
                    &&& final(self).pins() == old(self).pins().insert(*k, Self::exclusive())
                    &&& final(self).idle() == old(self).idle().remove(*k)
                    &&& final(self).order() == drop_key(old(self).order(), *k)
                    &&& final(self).backend().stored() == (if old(self).cached(*k) {
                        old(self).backend().stored()
                    } else {
                        old(self).fetched(*k)
                    })
                },
                Err(_) => {
                    &&& final(self).contents() == old(self).contents()
                    &&& final(self).pins() == old(self).pins()
                    &&& final(self).idle() == old(self).idle()
                    &&& final(self).order() == old(self).order()
                    &&& final(self).backend().stored() == old(self).backend().stored()
                },
            },
    {
        broadcast use vstd::std_specs::hash::group_hash_axioms;

        let ghost before = *self;
        let ghost entries = lru_entries(self.lru);
        if let Some(_) = lru_pop(&mut self.lru, k) {
            let ghost i = choose|i: int|
                0 <= i < entries.len() && (#[trigger] entries[i]).0 == *k && lru_entries(self.lru)
                    == entries.remove(i);
            proof {
                lemma_place(entries, i);
                lemma_entry_removed(entries, i);
                lemma_keys_removed(entries, i);
            }
            let v = self.parked.remove(k).unwrap();
            self.active.insert(*k, Pinned { dirty: true, readers: 0, value: None });
            proof {
                assert(self.pins() =~= before.pins().insert(*k, Self::exclusive()));
                assert(self.idle() =~= before.idle().remove(*k));
                assert(self.contents() =~= before.contents().remove(*k));
                assert(before.idle().contains_key(*k));
                self.carried(before, *k);
            }
            Ok(v)
        } else {
            proof {
                lemma_keys_absent(entries, *k);
            }
            let v = match self.compatible.get(*k) {
                Ok(v) => v,
                Err(e) => {
                    proof {
                        assert(self.pins() =~= before.pins());
                        assert(self.idle() =~= before.idle());
                        assert(self.contents() =~= before.contents());
                        self.carried(before, *k);
                    }
                    return Err(e);
                },
            };
            self.active.insert(*k, Pinned { dirty: true, readers: 0, value: None });
            proof {
                assert(self.pins() =~= before.pins().insert(*k, Self::exclusive()));
                assert(self.idle() =~= before.idle().remove(*k));
                assert(self.contents() =~= before.contents().remove(*k));
                self.carried(before, *k);
            }
            Ok(v)
        }
    }

    /// Every entry but that of `k` is as it was in `before`, and the backend
    /// holds under every other key what it held: then the backend still
    /// holds what it must for those entries.
    proof fn carried(&self, before: Self, k: u64)
        requires
            before.wf(),
            forall|x: u64|
                x != k ==> (#[trigger] self.pins().contains_key(x) ==> before.pins().contains_key(x)
                    && before.pins()[x] == self.pins()[x]),
            forall|x: u64|
                x != k ==> (#[trigger] self.idle().contains_key(x) ==> before.idle().contains_key(x)
                    && before.idle()[x] == self.idle()[x]),
            forall|x: u64|
                x != k ==> (#[trigger] self.compatible.stored().contains_key(x)
                    == before.compatible.stored().contains_key(x)),
            forall|x: u64|
                x != k && self.compatible.stored().contains_key(x)
                    ==> #[trigger] self.compatible.stored()[x] == before.compatible.stored()[x],
        ensures
            forall|x: u64|
                x != k && #[trigger] self.pins().contains_key(x) ==> Self::coherent(
                    self.compatible.stored(),
                    x,
                    self.pins()[x].dirty,
                    self.pins()[x].value,
                ),
            forall|x: u64|
                x != k && #[trigger] self.idle().contains_key(x) ==> Self::coherent(
                    self.compatible.stored(),
                    x,
                    self.idle()[x].dirty,
                    Some(self.idle()[x].value),
                ),
    {
        assert forall|x: u64| x != k && #[trigger] self.pins().contains_key(x) implies Self::coherent(
            self.compatible.stored(),
            x,
            self.pins()[x].dirty,
            self.pins()[x].value,
        ) by {
            assert(before.pins().contains_key(x));
        }
        assert forall|x: u64| x != k && #[trigger] self.idle().contains_key(x) implies Self::coherent(
            self.compatible.stored(),
            x,
            self.idle()[x].dirty,
            Some(self.idle()[x].value),
        ) by {
            assert(before.idle().contains_key(x));
        }
    }

    /// The inactive entry of `k` after `m` was stored under it.
    pub open spec fn rewritten(m: CC::Model) -> Idle<CC::Model> {
        Idle { dirty: true, value: m }
    }

    /// Stores `v` under `k`. An inactive entry takes the value, is marked
    /// modified and becomes the most recently used; the backend is not
    /// called. A key without an entry goes to the backend at once, and the
    /// failure of the backend is returned as it is.
    pub fn insert(&mut self, k: u64, v: V) -> (r: Result<(), CC::Error>)
        requires
            old(self).wf(),
            !old(self).pins().contains_key(k),
        ensures
            final(self).wf(),
            final(self).limit() == old(self).limit(),
            final(self).pins() == old(self).pins(),
            r is Ok <==> old(self).idle().contains_key(k) || old(self).backend().takes(
                k,
                CC::model_of(v),
            ),
            match r {
                Ok(()) => {
                    &&& final(self).contents() == old(self).contents().insert(k, CC::model_of(v))
                    &&& if old(self).idle().contains_key(k) {
                        &&& final(self).idle() == old(self).idle().insert(
                            k,
                            Self::rewritten(CC::model_of(v)),
                        )
                        &&& final(self).order() == seq![k] + drop_key(old(self).order(), k)
                        &&& final(self).backend().stored() == old(self).backend().stored()
                    } else {
                        &&& final(self).idle() == old(self).idle()
                        &&& final(self).order() == old(self).order()
                        &&& final(self).backend().stored() == old(self).backend().stored().insert(
                            k,
                            CC::model_of(v),
                        )
                    }
                },
                Err(_) => {
                    &&& final(self).contents() == old(self).contents()
                    &&& final(self).idle() == old(self).idle()
                    &&& final(self).order() == old(self).order()
                    &&& final(self).backend().stored() == old(self).backend().stored()
                },
            },
    {
        broadcast use vstd::std_specs::hash::group_hash_axioms;

        let ghost before = *self;
        let ghost entries = lru_entries(self.lru);
        let ghost m = CC::model_of(v);
        if let Some(_) = lru_pop(&mut self.lru, &k) {
            let ghost i = choose|i: int|
                0 <= i < entries.len() && (#[trigger] entries[i]).0 == k && lru_entries(self.lru)
                    == entries.remove(i);
            let ghost popped = lru_entries(self.lru);
            proof {
                lemma_place(entries, i);
                lemma_entry_removed(entries, i);
                lemma_keys_removed(entries, i);
                lemma_entry_pushed(popped, k, true);
                lemma_keys_pushed(popped, k, true);
                assert(popped.len() < lru_limit(self.lru));
            }
            let _ = lru_push(&mut self.lru, k, true);
            self.parked.insert(k, v);
            proof {
                assert(self.pins() =~= before.pins());
                assert(self.idle() =~= before.idle().insert(k, Self::rewritten(m)));
                assert(self.contents() =~= before.contents().insert(k, m));
                assert(before.idle().contains_key(k));
                self.carried(before, k);
            }
            Ok(())
        } else {
            match self.compatible.insert(k, v) {
                Ok(()) => {},
                Err(e) => {
                    proof {
                        assert(self.pins() =~= before.pins());
                        assert(self.idle() =~= before.idle());
                        assert(self.contents() =~= before.contents());
                        self.carried(before, k);
                    }
                    return Err(e);
                },
            }
            proof {
                assert(self.pins() =~= before.pins());
                assert(self.idle() =~= before.idle());
                assert(self.contents() =~= before.contents().insert(k, m));
                self.carried(before, k);
            }
            Ok(())
        }
    }

    /// Removes `k`: its inactive entry, if it has one, and what the backend
    /// has under it. The failure of the backend is returned as it is; the
    /// entry is gone all the same.
    pub fn remove(&mut self, k: &u64) -> (r: Result<(), CC::Error>)
        requires
            old(self).wf(),
            !old(self).pins().contains_key(*k),
        ensures
            final(self).wf(),
            final(self).limit() == old(self).limit(),
            final(self).pins() == old(self).pins(),
            final(self).idle() == old(self).idle().remove(*k),
            final(self).order() == drop_key(old(self).order(), *k),
            r is Ok <==> old(self).backend().drops(*k),
            match r {
                Ok(()) => {
                    &&& final(self).backend().stored() == old(self).backend().stored().remove(*k)
                    &&& final(self).contents() == old(self).contents().remove(*k)
                },
                Err(_) => final(self).backend().stored() == old(self).backend().stored(),
            },
    {
        broadcast use vstd::std_specs::hash::group_hash_axioms;

        let ghost before = *self;
        let ghost entries = lru_entries(self.lru);
        if let Some(_) = lru_pop(&mut self.lru, k) {
            let ghost i = choose|i: int|
                0 <= i < entries.len() && (#[trigger] entries[i]).0 == *k && lru_entries(self.lru)
                    == entries.remove(i);
            proof {
                lemma_place(entries, i);
                lemma_entry_removed(entries, i);
                lemma_keys_removed(entries, i);
            }
            self.parked.remove(k);
        } else {
            proof {
                lemma_keys_absent(entries, *k);
            }
        }
        let ghost mid = *self;
        proof {
            assert(self.pins() =~= before.pins());
            assert(self.idle() =~= before.idle().remove(*k));
        }
        let r = self.compatible.remove(*k);
        proof {
            assert(self.pins() =~= before.pins());
            assert(self.idle() =~= before.idle().remove(*k));
            self.carried(before, *k);
            if r is Ok {
                assert(self.contents() =~= before.contents().remove(*k));
            }
        }
        r
    }
    /// Takes one shared handle back: the active entry of `k` counts one
    /// less. Without such a handle out, nothing changes.
    pub fn unlock_shared(&mut self, k: &u64)
        requires
            old(self).wf(),
        ensures
            final(self).wf(),
            final(self).limit() == old(self).limit(),
            final(self).contents() == old(self).contents(),
            final(self).idle() == old(self).idle(),
            final(self).order() == old(self).order(),
            final(self).backend() == old(self).backend(),
            final(self).pins() == (if old(self).pins().contains_key(*k) && old(self).pins()[*k].readers
                > 0 {
                old(self).pins().insert(
                    *k,
                    Pin {
                        dirty: old(self).pins()[*k].dirty,
                        readers: (old(self).pins()[*k].readers - 1) as nat,
                        value: old(self).pins()[*k].value,
                    },
                )
            } else {
                old(self).pins()
            }),
    {
        broadcast use vstd::std_specs::hash::group_hash_axioms;

        let ghost before = *self;
        if let Some(mut pin) = self.active.remove(k) {
            if pin.readers > 0 {
                pin.readers = pin.readers - 1;
            }
            self.active.insert(*k, pin);
        }
        proof {
            assert(self.idle() =~= before.idle());
            assert(self.pins() =~= (if before.pins().contains_key(*k) && before.pins()[*k].readers
                > 0 {
                before.pins().insert(
                    *k,
                    Pin {
                        dirty: before.pins()[*k].dirty,
                        readers: (before.pins()[*k].readers - 1) as nat,
                        value: before.pins()[*k].value,
                    },
                )
            } else {
                before.pins()
            }));
            assert(self.contents() =~= before.contents());
            self.carried(before, *k);
            if self.pins().contains_key(*k) {
                assert(before.pins().contains_key(*k));
            }
        }
    }

    /// Takes the exclusive handle of `k` back, with the value that it
    /// holds: the value is part of what the cache holds again. Without such
    /// a handle out, nothing changes.
    pub fn unlock_exclusive(&mut self, k: &u64, v: V)
        requires
            old(self).wf(),
        ensures
            final(self).wf(),
            final(self).limit() == old(self).limit(),
            final(self).idle() == old(self).idle(),
            final(self).order() == old(self).order(),
            final(self).backend() == old(self).backend(),
            if old(self).pins().contains_key(*k) && old(self).pins()[*k].value is None {
                &&& final(self).pins() == old(self).pins().insert(
                    *k,
                    Pin { dirty: true, readers: 0, value: Some(CC::model_of(v)) },
                )
                &&& final(self).contents() == old(self).contents().insert(*k, CC::model_of(v))
            } else {
                &&& final(self).pins() == old(self).pins()
                &&& final(self).contents() == old(self).contents()
            },
    {
        broadcast use vstd::std_specs::hash::group_hash_axioms;

        let ghost before = *self;
        let ghost m = CC::model_of(v);
        if let Some(pin) = self.active.remove(k) {
            if pin.value.is_none() {
                self.active.insert(*k, Pinned { dirty: true, readers: 0, value: Some(v) });
                proof {
                    assert(self.pins() =~= before.pins().insert(
                        *k,
                        Pin { dirty: true, readers: 0, value: Some(m) },
                    ));
                    assert(self.contents() =~= before.contents().insert(*k, m));
                    assert(before.pins().contains_key(*k));
                }
            } else {
                self.active.insert(*k, pin);
                proof {
                    assert(self.pins() =~= before.pins());
                    assert(self.contents() =~= before.contents());
                    assert(before.pins().contains_key(*k));
                }
            }
        } else {
            proof {
                assert(self.pins() =~= before.pins());
                assert(self.contents() =~= before.contents());
            }
        }
        proof {
            assert(self.idle() =~= before.idle());
            self.carried(before, *k);
        }
    }

    /// The value of the active entry of `k`, unless it is away with an
    /// exclusive handle.
    pub fn peek(&self, k: &u64) -> (r: Option<&V>)
        ensures
            match r {
                Some(v) => self.pins().contains_key(*k) && self.pins()[*k].value == Some(
                    CC::model_of(*v),
                ),
                None => !self.pins().contains_key(*k) || self.pins()[*k].value is None,
            },
    {
        broadcast use vstd::std_specs::hash::group_hash_axioms;

        match self.active.get(k) {
            Some(pin) => pin.value.as_ref(),
            None => None,
        }
    }
    /// The key that leaves the inactive entries when one more comes in: the
    /// least recently used, where they are as many as the limit.
    pub open spec fn victim(&self) -> Option<u64> {
        if self.order().len() == self.limit() {
            Some(self.order().last())
        } else {
            None
        }
    }

    /// The inactive entries after an entry of `k`, with this mark and this
    /// value, joined them and the victim, if there is one, left.
    pub open spec fn joined(&self, k: u64, dirty: bool, m: CC::Model) -> Map<u64, Idle<CC::Model>> {
        let all = self.idle().insert(k, Idle { dirty, value: m });
        match self.victim() {
            Some(w) => all.remove(w),
            None => all,
        }
    }

    /// The inactive entries after the idle active entry of `k` joined them
    /// and the victim, if there is one, left.
    pub open spec fn settled(&self, k: u64) -> Map<u64, Idle<CC::Model>> {
        self.joined(k, self.pins()[k].dirty, self.pins()[k].value->Some_0)
    }

    /// The backend takes the victim, if there is one: an unmodified entry
    /// always, a modified one where `insert` succeeds.
    pub open spec fn evicts(&self) -> bool {
        match self.victim() {
            Some(w) => !self.idle()[w].dirty || self.backend().takes(w, self.idle()[w].value),
            None => true,
        }
    }

    /// What the backend holds once the victim, if there is one, was handed
    /// to it, successfully or not.
    pub open spec fn written_back(&self, ok: bool) -> Map<u64, CC::Model> {
        match self.victim() {
            Some(w) => if ok {
                self.backend().stored().insert(w, self.idle()[w].value)
            } else {
                self.backend().stored()
            },
            None => self.backend().stored(),
        }
    }

    /// The order of use after `k` became the most recently used inactive
    /// entry and the victim, if there is one, left.
    pub open spec fn reordered(&self, k: u64) -> Seq<u64> {
        match self.victim() {
            Some(_) => seq![k] + self.order().drop_last(),
            None => seq![k] + self.order(),
        }
    }

    /// Makes the active entry of `k` inactive, as the most recently used.
    /// Where the inactive entries were as many as the limit, the least
    /// recently used leaves: the backend gets it by `insert` where it was
    /// modified, by `replace` where not. The failure of the backend is
    /// returned as it is, and the entry that left is lost. A key that is not
    /// active, or for which a handle is out, changes nothing.
    pub fn deactivate(&mut self, k: &u64) -> (r: Result<(), CC::Error>)
        requires
            old(self).wf(),
        ensures
            final(self).wf(),
            final(self).limit() == old(self).limit(),
            if old(self).pins().contains_key(*k) && !old(self).locked(*k) {
                &&& r is Ok <==> old(self).evicts()
                &&& final(self).pins() == old(self).pins().remove(*k)
                &&& final(self).idle() == old(self).settled(*k)
                &&& final(self).order() == old(self).reordered(*k)
                &&& final(self).backend().stored() == old(self).written_back(r is Ok)
                &&& r is Ok ==> final(self).contents() == old(self).contents()
            } else {
                &&& r is Ok
                &&& final(self).pins() == old(self).pins()
                &&& final(self).idle() == old(self).idle()
                &&& final(self).order() == old(self).order()
                &&& final(self).backend() == old(self).backend()
                &&& final(self).contents() == old(self).contents()
            },
    {
        broadcast use vstd::std_specs::hash::group_hash_axioms;

        let ghost before = *self;
        let ghost entries = lru_entries(self.lru);
        if !self.active.contains_key(k) || self.is_locked(k) {
            return Ok(());
        }
        let item = self.active.remove(k).unwrap();
        let Pinned { dirty, readers: _, value } = item;
        let v = value.unwrap();
        let ghost m = CC::model_of(v);
        proof {
            assert(before.pins().contains_key(*k));
            assert(!listed(entries, *k));
            lemma_entry_pushed(entries, *k, dirty);
            lemma_keys_pushed(entries, *k, dirty);
            if entries.len() > 0 {
                lemma_place(entries, entries.len() - 1);
                lemma_entry_removed(entries, entries.len() - 1);
                lemma_entry_pushed(entries.drop_last(), *k, dirty);
                lemma_keys_pushed(entries.drop_last(), *k, dirty);
                assert(entries.remove(entries.len() - 1) =~= entries.drop_last());
                assert(keys_of(entries.drop_last()) =~= keys_of(entries).drop_last());
            }
        }
        let out = lru_push(&mut self.lru, *k, dirty);
        self.parked.insert(*k, v);
        match out {
            None => {
                proof {
                    assert(self.pins() =~= before.pins().remove(*k));
                    assert(self.idle() =~= before.settled(*k));
                    assert(self.contents() =~= before.contents());
                    self.carried(before, *k);
                }
                Ok(())
            },
            Some((w, changed)) => {
                let wv = self.parked.remove(&w).unwrap();
                let ghost wm = CC::model_of(wv);
                let ghost mid = *self;
                proof {
                    assert(before.idle().contains_key(w));
                    assert(before.idle()[w].value == wm);
                    assert(mid.pins() =~= before.pins().remove(*k));
                    assert(mid.idle() =~= before.settled(*k));
                    mid.carried(before, *k);
                    assert(mid.wf());
                }
                if changed {
                    match self.compatible.insert(w, wv) {
                        Ok(()) => {},
                        Err(e) => {
                            proof {
                                assert(self.pins() =~= mid.pins());
                                assert(self.idle() =~= mid.idle());
                                self.carried(mid, w);
                            }
                            return Err(e);
                        },
                    }
                } else {
                    self.compatible.replace(w, wv);
                }
                proof {
                    assert(self.pins() =~= mid.pins());
                    assert(self.idle() =~= mid.idle());
                    self.carried(mid, w);
                    assert(self.contents() =~= before.contents());
                }
                Ok(())
            },
        }
    }
    /// No entry is active.
    pub open spec fn quiet(&self) -> bool {
        self.pins() == Map::<u64, Pin<CC::Model>>::empty()
    }

    /// The backend never refuses an `insert` or a `commit`.
    pub open spec fn willing() -> bool {
        &&& forall|b: CC, k: u64, m: CC::Model| b.inv() ==> #[trigger] b.takes(k, m)
        &&& forall|b: CC| b.inv() ==> #[trigger] b.settles()
    }

    /// What a `commit` that failed leaves behind `self`: either every entry
    /// went to the backend and the backend refused its own commit; or the
    /// backend refused the modified entry of a key, which is lost, after it
    /// took the entries used less recently, and the entries used more
    /// recently are still there.
    pub open spec fn cut_short(&self, after: Self) -> bool {
        ||| {
            &&& after.idle() == Map::<u64, Idle<CC::Model>>::empty()
            &&& after.order() == Seq::<u64>::empty()
            &&& after.backend().stored() == self.contents()
        }
        ||| exists|p: int|
            {
                &&& 0 <= p < self.order().len()
                &&& self.idle()[#[trigger] self.order()[p]].dirty
                &&& after.order() == self.order().subrange(0, p)
                &&& after.contents().remove(self.order()[p]) == self.contents().remove(
                    self.order()[p],
                )
                &&& forall|k: u64|
                    #[trigger] after.idle().contains_key(k) ==> self.idle().contains_key(k)
                        && after.idle()[k] == self.idle()[k]
            }
    }

    /// Writes every inactive entry back to the backend, the least recently
    /// used first, by `insert` where it was modified, by `replace` where not,
    /// and then commits the backend. After success no entry is left, and the
    /// backend holds what the cache held as a whole. The first failure of
    /// the backend is returned as it is; the entry that it refused is lost.
    pub fn commit(&mut self) -> (r: Result<(), CC::Error>)
        requires
            old(self).wf(),
            old(self).quiet(),
        ensures
            final(self).wf(),
            final(self).quiet(),
            final(self).limit() == old(self).limit(),
            Self::willing() ==> r is Ok,
            r is Ok ==> {
                &&& final(self).idle() == Map::<u64, Idle<CC::Model>>::empty()
                &&& final(self).order() == Seq::<u64>::empty()
                &&& final(self).backend().stored() == old(self).contents()
                &&& final(self).contents() == old(self).contents()
            },
            r is Err ==> old(self).cut_short(*final(self)),
    {
        broadcast use vstd::std_specs::hash::group_hash_axioms;

        let ghost start = *self;
        loop
            invariant
                start == *old(self),
                self.wf(),
                self.quiet(),
                self.limit() == start.limit(),
                self.contents() == start.contents(),
                self.order().len() <= start.order().len(),
                self.order() == start.order().subrange(0, self.order().len() as int),
                forall|x: u64|
                    #[trigger] self.idle().contains_key(x) ==> start.idle().contains_key(x)
                        && self.idle()[x] == start.idle()[x],
            ensures
                self.wf(),
                self.quiet(),
                self.limit() == start.limit(),
                self.contents() == start.contents(),
                lru_entries(self.lru).len() == 0,
            decreases lru_entries(self.lru).len(),
        {
            let ghost before = *self;
            let ghost entries = lru_entries(self.lru);
            let (k, changed) = match lru_pop_lru(&mut self.lru) {
                Some(entry) => entry,
                None => {
                    break ;
                },
            };
            proof {
                lemma_place(entries, entries.len() - 1);
                lemma_entry_removed(entries, entries.len() - 1);
                assert(entries.remove(entries.len() - 1) =~= entries.drop_last());
                assert(before.idle().contains_key(k));
                assert(keys_of(entries.drop_last()) =~= keys_of(entries).drop_last());
            }
            let v = self.parked.remove(&k).unwrap();
            let ghost mid = *self;
            proof {
                assert(mid.pins() =~= before.pins());
                assert(mid.idle() =~= before.idle().remove(k));
                mid.carried(before, k);
                assert(mid.wf());
                assert(mid.order() =~= start.order().subrange(0, mid.order().len() as int));
            }
            if changed {
                match self.compatible.insert(k, v) {
                    Ok(()) => {},
                    Err(e) => {
                        proof {
                            assert(self.pins() =~= mid.pins());
                            assert(self.idle() =~= mid.idle());
                            self.carried(mid, k);
                            let p = entries.len() - 1;
                            assert(before.order()[p] == k);
                            assert(before.order()[p] == start.order().subrange(
                                0,
                                before.order().len() as int,
                            )[p]);
                            assert(start.order()[p] == k);
                            assert(start.idle()[k].dirty);
                            assert(self.contents().remove(k) =~= start.contents().remove(k));
                        }
                        return Err(e);
                    },
                }
            } else {
                self.compatible.replace(k, v);
            }
            proof {
                assert(self.pins() =~= mid.pins());
                assert(self.idle() =~= mid.idle());
                self.carried(mid, k);
                assert(self.contents() =~= before.contents());
            }
        }
        let ghost drained = *self;
        proof {
            assert(self.idle() =~= Map::<u64, Idle<CC::Model>>::empty()) by {
                assert forall|k: u64| !self.parked@.contains_key(k) by {
                    if self.parked@.contains_key(k) {
                        assert(listed(lru_entries(self.lru), k));
                    }
                }
            }
            assert(self.order() =~= Seq::<u64>::empty());
            assert(self.contents() =~= self.compatible.stored());
        }
        let r = self.compatible.commit();
        proof {
            assert(self.pins() =~= drained.pins());
            assert(self.idle() =~= drained.idle());
            assert(self.order() =~= drained.order());
            assert(self.contents() =~= self.compatible.stored());
        }
        r
    }

    /// Ends the cache and gives the backend back, after a `commit` whose
    /// outcome comes with it.
    pub fn close(self) -> (r: (CC, Result<(), CC::Error>))
        requires
            self.wf(),
            self.quiet(),
        ensures
            r.0.inv(),
            Self::willing() ==> r.1 is Ok,
            r.1 is Ok ==> r.0.stored() == self.contents(),
    {
        let mut this = self;
        let outcome = this.commit();
        (this.compatible, outcome)
    }
}

impl<V, CC: CacheMutCompatible<u64, V>> CacheMutBase<V, CC> {
    /// No key is both active and inactive.
    pub proof fn lemma_partition(&self, k: u64)
        requires
            self.wf(),
        ensures
            !(self.pins().contains_key(k) && self.idle().contains_key(k)),
    {
    }

    /// The order of use lists the keys of the inactive entries, each once,
    /// and they are no more than the limit.
    pub proof fn lemma_order(&self)
        requires
            self.wf(),
        ensures
            self.order().no_duplicates(),
            forall|k: u64| #[trigger] self.order().contains(k) <==> self.idle().contains_key(k),
            self.order().len() <= self.limit(),
            self.limit() >= 1,
    {
        let entries = lru_entries(self.lru);
        let order = self.order();
        assert forall|i: int, j: int| 0 <= i < order.len() && 0 <= j < order.len() && i != j implies order[i]
            != order[j] by {
            if i < j {
                assert(entries[i].0 != entries[j].0);
            } else {
                assert(entries[j].0 != entries[i].0);
            }
        }
        assert forall|k: u64| #[trigger] order.contains(k) <==> self.idle().contains_key(k) by {
            if order.contains(k) {
                let i = choose|i: int| 0 <= i < order.len() && order[i] == k;
                assert(entries[i].0 == k);
                assert(listed(entries, k));
                assert(self.parked@.contains_key(k));
            }
            if self.idle().contains_key(k) {
                assert(self.parked@.contains_key(k));
                let i = place_of(entries, k);
                assert(order[i] == k);
            }
        }
    }

    /// Writing an unmodified inactive entry back to a backend that does not
    /// lend changes nothing of what the backend holds. So handles that are
    /// only shared, taken and given back in any number, leave such a backend
    /// as it is.
    pub proof fn lemma_clean_write_back(&self, k: u64)
        requires
            self.wf(),
            !CC::lends(),
            self.idle().contains_key(k),
            !self.idle()[k].dirty,
        ensures
            self.backend().stored().insert(k, self.idle()[k].value) == self.backend().stored(),
    {
        assert(self.backend().stored().insert(k, self.idle()[k].value)
            =~= self.backend().stored());
    }

    /// For each entry the backend holds what it must: nothing under the key
    /// where it lends; the key where it does not, and the value of the entry
    /// too while that is unmodified.
    pub proof fn lemma_coherent(&self, k: u64)
        requires
            self.wf(),
        ensures
            self.backend().inv(),
            self.pins().contains_key(k) ==> Self::coherent(
                self.backend().stored(),
                k,
                self.pins()[k].dirty,
                self.pins()[k].value,
            ),
            self.idle().contains_key(k) ==> Self::coherent(
                self.backend().stored(),
                k,
                self.idle()[k].dirty,
                Some(self.idle()[k].value),
            ),
    {
    }
}

/// A shared handle: the key for which it is out. While it is out, the entry
/// of the key stays active.
pub struct CMRef {
    k: u64,
}

impl CMRef {
    /// The key for which the handle is out.
    pub closed spec fn key(&self) -> u64 {
        self.k
    }

    /// The key for which the handle is out.
    pub fn k(&self) -> (k: u64)
        ensures
            k == self.key(),
    {
        self.k
    }
}

/// An exclusive handle: the key for which it is out, and the value, which
/// the holder may change. While it is out, the entry of the key stays
/// active.
pub struct CMRefMut<V> {
    k: u64,
    item: V,
}

impl<V> CMRefMut<V> {
    /// The key for which the handle is out.
    pub closed spec fn key(&self) -> u64 {
        self.k
    }

    /// The value that the handle holds.
    pub closed spec fn held(&self) -> V {
        self.item
    }

    /// The key for which the handle is out.
    pub fn k(&self) -> (k: u64)
        ensures
            k == self.key(),
    {
        self.k
    }
}

impl<V> std::ops::Deref for CMRefMut<V> {
    type Target = V;

    fn deref(&self) -> (r: &V)
        ensures
            *r == self.held(),
    {
        &self.item
    }
}

impl<V> std::ops::DerefMut for CMRefMut<V> {
    fn deref_mut(&mut self) -> (r: &mut V)
        ensures
            *r == old(self).held(),
            final(self).held() == *final(r),
            final(self).key() == old(self).key(),
    {
        &mut self.item
    }
}

/// The cache as its users see it: it gives handles out and takes them back.
/// An entry is active exactly while a handle is out for its key.
pub struct CacheMut<V, CC: CacheMutCompatible<u64, V>>(CacheMutBase<V, CC>);

impl<V, CC: CacheMutCompatible<u64, V>> CacheMut<V, CC> {
    /// The state of the cache.
    pub closed spec fn inner(&self) -> CacheMutBase<V, CC> {
        self.0
    }

    /// The state is well-formed and a handle is out for every active entry.
    pub open spec fn wf(&self) -> bool {
        &&& self.inner().wf()
        &&& forall|k: u64| #[trigger] self.inner().pins().contains_key(k) ==> self.inner().locked(k)
    }

    /// The number of handles that are out for `k`.
    pub open spec fn outstanding(&self, k: u64) -> nat {
        if !self.inner().pins().contains_key(k) {
            0
        } else if self.inner().pins()[k].value is None {
            1
        } else {
            self.inner().pins()[k].readers
        }
    }

    /// What the cache holds as a whole.
    pub open spec fn contents(&self) -> Map<u64, CC::Model> {
        self.inner().contents()
    }

    /// A cache over `compatible` that keeps at most `capacity` inactive
    /// entries, with no entry yet.
    pub fn new(compatible: CC, capacity: usize) -> (r: Self)
        requires
            1 <= capacity <= MAX_CAPACITY,
            compatible.inv(),
        ensures
            r.wf(),
            r.inner().backend() == compatible,
            r.inner().limit() == capacity,
            r.inner().quiet(),
            r.inner().idle() == Map::<u64, Idle<CC::Model>>::empty(),
            r.inner().order() == Seq::<u64>::empty(),
            r.contents() == compatible.stored(),
    {
        Self(CacheMutBase::new(compatible, capacity))
    }

    /// Stores `v` under `k`: in the inactive entry of `k`, which is marked
    /// modified and becomes the most recently used, or else in the backend
    /// at once. Succeeds exactly where `k` has an inactive entry or the
    /// backend takes the value. A failure changes nothing.
    pub fn insert(&mut self, k: u64, v: V) -> (r: Result<(), CC::Error>)
        requires
            old(self).wf(),
            old(self).outstanding(k) == 0,
        ensures
            final(self).wf(),
            final(self).inner().limit() == old(self).inner().limit(),
            final(self).inner().pins() == old(self).inner().pins(),
            r is Ok <==> old(self).inner().idle().contains_key(k) || old(self).inner().backend().takes(k, CC::model_of(v)),
            match r {
                Ok(()) => {
                    &&& final(self).contents() == old(self).contents().insert(k, CC::model_of(v))
                    &&& if old(self).inner().idle().contains_key(k) {
                        &&& final(self).inner().idle() == old(self).inner().idle().insert(
                            k,
                            CacheMutBase::<V, CC>::rewritten(CC::model_of(v)),
                        )
                        &&& final(self).inner().order() == seq![k] + drop_key(
                            old(self).inner().order(),
                            k,
                        )
                        &&& final(self).inner().backend().stored() == old(self).inner().backend().stored()
                    } else {
                        &&& final(self).inner().idle() == old(self).inner().idle()
                        &&& final(self).inner().order() == old(self).inner().order()
                        &&& final(self).inner().backend().stored() == old(self).inner().backend().stored().insert(k, CC::model_of(v))
                    }
                },
                Err(_) => {
                    &&& final(self).contents() == old(self).contents()
                    &&& final(self).inner().idle() == old(self).inner().idle()
                    &&& final(self).inner().order() == old(self).inner().order()
                    &&& final(self).inner().backend().stored() == old(self).inner().backend().stored()
                },
            },
    {
        self.0.insert(k, v)
    }

    /// Removes `k`: its inactive entry, if it has one, and what the backend
    /// has under it. Succeeds exactly where the backend does; the entry is
    /// gone all the same.
    pub fn remove(&mut self, k: &u64) -> (r: Result<(), CC::Error>)
        requires
            old(self).wf(),
            old(self).outstanding(*k) == 0,
        ensures
            final(self).wf(),
            final(self).inner().limit() == old(self).inner().limit(),
            final(self).inner().pins() == old(self).inner().pins(),
            final(self).inner().idle() == old(self).inner().idle().remove(*k),
            final(self).inner().order() == drop_key(old(self).inner().order(), *k),
            r is Ok <==> old(self).inner().backend().drops(*k),
            match r {
                Ok(()) => {
                    &&& final(self).inner().backend().stored() == old(self).inner().backend().stored().remove(*k)
                    &&& final(self).contents() == old(self).contents().remove(*k)
                },
                Err(_) => final(self).inner().backend().stored() == old(self).inner().backend().stored(),
            },
    {
        self.0.remove(k)
    }

    /// Whether the backend or an entry has `k`.
    pub fn contains(&self, k: &u64) -> (r: bool)
        requires
            self.wf(),
        ensures
            r == (self.inner().backend().stored().contains_key(*k) || self.inner().cached(*k)),
    {
        self.0.contains(k)
    }

    /// A shared handle for `k`. The entry of `k` becomes active, or counts
    /// one more handle; a key without an entry is fetched from the backend.
    /// Succeeds exactly where `k` has an entry or the backend serves it. What
    /// the cache holds as a whole does not change, and a failure changes
    /// nothing at all.
    pub fn get(&mut self, k: &u64) -> (r: Result<CMRef, CC::Error>)
        requires
            old(self).wf(),
            !old(self).writing(*k),
            old(self).outstanding(*k) < usize::MAX,
        ensures
            final(self).wf(),
            final(self).inner().limit() == old(self).inner().limit(),
            final(self).contents() == old(self).contents(),
            r is Ok <==> old(self).inner().cached(*k) || old(self).inner().backend().serves(*k),
            match r {
                Ok(h) => {
                    &&& h.key() == *k
                    &&& final(self).contents().contains_key(*k)
                    &&& final(self).outstanding(*k) == old(self).outstanding(*k) + 1
                    &&& final(self).inner().pins() == old(self).inner().pins().insert(
                        *k,
                        old(self).inner().shared(*k),
                    )
                    &&& final(self).inner().idle() == old(self).inner().idle().remove(*k)
                    &&& final(self).inner().order() == drop_key(old(self).inner().order(), *k)
                    &&& final(self).inner().backend().stored() == (if old(self).inner().cached(*k) {
                        old(self).inner().backend().stored()
                    } else {
                        old(self).inner().fetched(*k)
                    })
                },
                Err(_) => {
                    &&& final(self).inner().pins() == old(self).inner().pins()
                    &&& final(self).inner().idle() == old(self).inner().idle()
                    &&& final(self).inner().order() == old(self).inner().order()
                    &&& final(self).inner().backend().stored() == old(self).inner().backend().stored()
                },
            },
    {
        match self.0.get(k) {
            Ok(()) => Ok(CMRef { k: *k }),
            Err(e) => Err(e),
        }
    }

    /// An exclusive handle for `k`, with the value of `k`. The entry of `k`
    /// becomes active and is marked modified; a key without an entry is
    /// fetched from the backend. Succeeds exactly where `k` has an entry or
    /// the backend serves it. A failure changes nothing.
    pub fn get_mut(&mut self, k: &u64) -> (r: Result<CMRefMut<V>, CC::Error>)
        requires
            old(self).wf(),
            old(self).outstanding(*k) == 0,
        ensures
            final(self).wf(),
            final(self).inner().limit() == old(self).inner().limit(),
            r is Ok <==> old(self).inner().cached(*k) || old(self).inner().backend().serves(*k),
            match r {
                Ok(h) => {
                    &&& h.key() == *k
                    &&& old(self).contents().contains_key(*k)
                    &&& CC::model_of(h.held()) == old(self).contents()[*k]
                    &&& final(self).contents() == old(self).contents().remove(*k)
                    &&& final(self).outstanding(*k) == 1
                    &&& final(self).inner().pins() == old(self).inner().pins().insert(
                        *k,
                        CacheMutBase::<V, CC>::exclusive(),
                    )
                    &&& final(self).inner().idle() == old(self).inner().idle().remove(*k)
                    &&& final(self).inner().order() == drop_key(old(self).inner().order(), *k)
                    &&& final(self).inner().backend().stored() == (if old(self).inner().cached(*k) {
                        old(self).inner().backend().stored()
                    } else {
                        old(self).inner().fetched(*k)
                    })
                },
                Err(_) => {
                    &&& final(self).contents() == old(self).contents()
                    &&& final(self).inner().pins() == old(self).inner().pins()
                    &&& final(self).inner().idle() == old(self).inner().idle()
                    &&& final(self).inner().order() == old(self).inner().order()
                    &&& final(self).inner().backend().stored() == old(self).inner().backend().stored()
                },
            },
    {
        match self.0.get_mut(k) {
            Ok(item) => Ok(CMRefMut { k: *k, item }),
            Err(e) => Err(e),
        }
    }

    /// The value that a shared handle stands for, while the entry of its key
    /// is active and its value is not away with an exclusive handle.
    pub fn read(&self, h: &CMRef) -> (r: Option<&V>)
        ensures
            match r {
                Some(v) => self.contents().contains_key(h.key()) && self.inner().pins().contains_key(
                    h.key(),
                ) && CC::model_of(*v) == self.contents()[h.key()],
                None => !self.inner().pins().contains_key(h.key()) || self.inner().pins()[h.key()].value is None,
            },
    {
        self.0.peek(&h.k)
    }

    /// The handle that is out for `k` is the only one, and it is shared.
    pub open spec fn last_shared(&self, k: u64) -> bool {
        &&& self.inner().pins().contains_key(k)
        &&& self.inner().pins()[k].value is Some
        &&& self.inner().pins()[k].readers == 1
    }

    /// An exclusive handle is out for `k`.
    pub open spec fn writing(&self, k: u64) -> bool {
        self.inner().pins().contains_key(k) && self.inner().pins()[k].value is None
    }

    /// Takes a shared handle back. With the last handle of its key the
    /// entry becomes inactive and the most recently used; where the inactive
    /// entries were as many as the limit, the least recently used leaves,
    /// and the backend gets it by `insert` where it was modified, by
    /// `replace` where not. This fails exactly where the backend refuses
    /// that entry, which is then lost; otherwise what the cache holds as a
    /// whole does not change. While other handles of the key are out, the
    /// entry only counts one less; a handle whose key has no shared handle
    /// out changes nothing.
    pub fn release(&mut self, h: CMRef) -> (r: Result<(), CC::Error>)
        requires
            old(self).wf(),
        ensures
            final(self).wf(),
            final(self).inner().limit() == old(self).inner().limit(),
            r is Ok ==> final(self).contents() == old(self).contents(),
            if old(self).last_shared(h.key()) {
                &&& r is Ok <==> old(self).inner().evicts()
                &&& final(self).inner().pins() == old(self).inner().pins().remove(h.key())
                &&& final(self).inner().idle() == old(self).inner().settled(h.key())
                &&& final(self).inner().order() == old(self).inner().reordered(h.key())
                &&& final(self).inner().backend().stored() == old(self).inner().written_back(
                    r is Ok,
                )
            } else {
                &&& r is Ok
                &&& final(self).inner().idle() == old(self).inner().idle()
                &&& final(self).inner().order() == old(self).inner().order()
                &&& final(self).inner().backend() == old(self).inner().backend()
                &&& final(self).inner().pins() == (if old(self).inner().pins().contains_key(h.key())
                    && old(self).inner().pins()[h.key()].value is Some {
                    old(self).inner().pins().insert(
                        h.key(),
                        Pin {
                            dirty: old(self).inner().pins()[h.key()].dirty,
                            readers: (old(self).inner().pins()[h.key()].readers - 1) as nat,
                            value: old(self).inner().pins()[h.key()].value,
                        },
                    )
                } else {
                    old(self).inner().pins()
                })
            },
    {
        let ghost before = self.0;
        self.0.unlock_shared(&h.k);
        let ghost mid = self.0;
        if !self.0.is_locked(&h.k) {
            let r = self.0.deactivate(&h.k);
            proof {
                assert forall|x: u64| #[trigger] self.inner().pins().contains_key(x) implies self.inner().locked(
                    x,
                ) by {
                    assert(mid.pins().contains_key(x));
                    assert(before.pins().contains_key(x));
                }
            }
            r
        } else {
            proof {
                assert forall|x: u64| #[trigger] self.inner().pins().contains_key(x) implies self.inner().locked(
                    x,
                ) by {
                    assert(before.pins().contains_key(x));
                }
            }
            Ok(())
        }
    }

    /// Takes an exclusive handle back, with the value that it holds: the
    /// value is part of what the cache holds again, and the entry, marked
    /// modified, becomes inactive and the most recently used; where the
    /// inactive entries were as many as the limit, the least recently used
    /// leaves, as with `release`. This fails exactly where the backend
    /// refuses that entry, which is then lost. A handle whose key is not
    /// held exclusively changes nothing.
    pub fn release_mut(&mut self, h: CMRefMut<V>) -> (r: Result<(), CC::Error>)
        requires
            old(self).wf(),
        ensures
            final(self).wf(),
            final(self).inner().limit() == old(self).inner().limit(),
            if old(self).writing(h.key()) {
                &&& r is Ok <==> old(self).inner().evicts()
                &&& r is Ok ==> final(self).contents() == old(self).contents().insert(
                    h.key(),
                    CC::model_of(h.held()),
                )
                &&& final(self).inner().pins() == old(self).inner().pins().remove(h.key())
                &&& final(self).inner().idle() == old(self).inner().joined(
                    h.key(),
                    true,
                    CC::model_of(h.held()),
                )
                &&& final(self).inner().order() == old(self).inner().reordered(h.key())
                &&& final(self).inner().backend().stored() == old(self).inner().written_back(
                    r is Ok,
                )
            } else {
                &&& r is Ok
                &&& final(self).contents() == old(self).contents()
                &&& final(self).inner().pins() == old(self).inner().pins()
                &&& final(self).inner().idle() == old(self).inner().idle()
                &&& final(self).inner().order() == old(self).inner().order()
                &&& final(self).inner().backend() == old(self).inner().backend()
            },
    {
        let ghost before = self.0;
        let CMRefMut { k, item } = h;
        self.0.unlock_exclusive(&k, item);
        let ghost mid = self.0;
        if !self.0.is_locked(&k) {
            let r = self.0.deactivate(&k);
            proof {
                assert forall|x: u64| #[trigger] self.inner().pins().contains_key(x) implies self.inner().locked(
                    x,
                ) by {
                    assert(mid.pins().contains_key(x));
                    assert(before.pins().contains_key(x));
                }
            }
            r
        } else {
            proof {
                assert forall|x: u64| #[trigger] self.inner().pins().contains_key(x) implies self.inner().locked(
                    x,
                ) by {
                    assert(before.pins().contains_key(x));
                }
            }
            Ok(())
        }
    }

    /// Writes every inactive entry back, the least recently used first, and
    /// commits the backend. After success no entry is left, and the backend
    /// holds what the cache held as a whole. The first failure of the
    /// backend is returned as it is; what is left then is what `cut_short`
    /// says.
    pub fn commit(&mut self) -> (r: Result<(), CC::Error>)
        requires
            old(self).wf(),
            old(self).inner().quiet(),
        ensures
            final(self).wf(),
            final(self).inner().quiet(),
            final(self).inner().limit() == old(self).inner().limit(),
            CacheMutBase::<V, CC>::willing() ==> r is Ok,
            r is Ok ==> {
                &&& final(self).inner().idle() == Map::<u64, Idle<CC::Model>>::empty()
                &&& final(self).inner().order() == Seq::<u64>::empty()
                &&& final(self).inner().backend().stored() == old(self).contents()
                &&& final(self).contents() == old(self).contents()
            },
            r is Err ==> old(self).inner().cut_short(final(self).inner()),
    {
        self.0.commit()
    }

    /// The number of inactive entries that the cache keeps at most.
    pub fn cap(&self) -> (r: usize)
        ensures
            r == self.inner().limit(),
    {
        self.0.cap()
    }

    /// Whether `k` is active.
    pub fn active(&self, k: &u64) -> (r: bool)
        ensures
            r == self.inner().pins().contains_key(*k),
    {
        self.0.active(k)
    }

    /// The number of active entries.
    pub fn num_active(&self) -> (r: usize)
        ensures
            r == self.inner().pins().dom().len(),
    {
        self.0.num_active()
    }

    /// Whether an exclusive handle is out for `k`.
    pub fn is_exclusive(&self, k: &u64) -> (r: bool)
        ensures
            r == (self.inner().pins().contains_key(*k) && self.inner().pins()[*k].value is None),
    {
        self.0.is_exclusive(k)
    }

    /// Ends the cache and gives the backend back, after a `commit` whose
    /// outcome comes with it.
    pub fn close(self) -> (r: (CC, Result<(), CC::Error>))
        requires
            self.wf(),
            self.inner().quiet(),
        ensures
            r.0.inv(),
            CacheMutBase::<V, CC>::willing() ==> r.1 is Ok,
            r.1 is Ok ==> r.0.stored() == self.contents(),
    {
        self.0.close()
    }
}

impl<V, CC: CacheMutCompatible<u64, V>> CacheMut<V, CC> {
    /// Once every handle is back, no entry is active.
    pub proof fn lemma_all_released(&self)
        requires
            self.wf(),
            forall|k: u64| self.outstanding(k) == 0,
        ensures
            self.inner().quiet(),
            self.inner().pins().dom().len() == 0,
    {
        assert forall|k: u64| !self.inner().pins().contains_key(k) by {
            if self.inner().pins().contains_key(k) {
                assert(self.inner().locked(k));
                assert(self.outstanding(k) == 0);
            }
        }
        assert(self.inner().pins() =~= Map::<u64, Pin<CC::Model>>::empty());
        assert(self.inner().pins().dom() =~= Set::<u64>::empty());
    }

    /// A cache without entries holds what its backend holds. So a new cache
    /// over the backend of a cache that was committed holds what that cache
    /// held.
    pub proof fn lemma_reopened(committed: Self, reopened: Self)
        requires
            committed.inner().quiet(),
            committed.inner().idle() == Map::<u64, Idle<CC::Model>>::empty(),
            reopened.inner().quiet(),
            reopened.inner().idle() == Map::<u64, Idle<CC::Model>>::empty(),
            reopened.inner().backend() == committed.inner().backend(),
        ensures
            committed.contents() == committed.inner().backend().stored(),
            reopened.contents() == committed.contents(),
    {
        assert(committed.contents() =~= committed.inner().backend().stored());
        assert(reopened.contents() =~= reopened.inner().backend().stored());
    }
}

} // verus!
