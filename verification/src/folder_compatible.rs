//! The folder-backed store: the buckets of a folder and the index from each
//! key to the slot that holds its record.

use crate::bucket::power_of_two;
use crate::cache::{CacheCompatible, CacheMutCompatible};
use crate::codec::{key_decoding, key_encoding};
use crate::folder::{
    fault_of, faulty, from_folder, lemma_mirrors_same, lemma_others_usable, lemma_stored_folder,
    mirrors, stores, usable,
};
use crate::index::{
    contents_of, indexed, lemma_index_add, lemma_index_determined, lemma_index_migrate,
    lemma_index_overwrite, lemma_index_remove, reindexed,
};
use crate::layout::{key_bytes, slot_size, value_bytes, FRAME_LIMIT};
use crate::level2::{lemma_position, position, present, CacheLevel2};
use crate::scan::{indexable_before, lemma_indexed_distinct, unindexable};
use std::collections::HashMap;
use vstd::bytes::spec_u64_to_le_bytes;
use vstd::prelude::*;

pub use crate::error::{FolderCacheError, IoFault};
pub use crate::folder::{clear_cache, StoredFile};
pub use crate::level2::Ref;

verus! {

/// The folder-backed store: the buckets and the index of their records.
pub struct FolderCache {
    pub lvl2: CacheLevel2,
    pub map: HashMap<u64, Ref>,
}

impl FolderCache {
    /// The buckets are well-formed, and the index and the records agree.
    pub open spec fn wf(&self) -> bool {
        &&& self.lvl2.wf()
        &&& indexed(self.lvl2.records(), self.map@)
    }

    /// What the store holds: under each key, the value bytes of its record.
    pub open spec fn contents(&self) -> Map<u64, Seq<u8>> {
        contents_of(self.lvl2.records(), self.map@)
    }

    /// The store can take the value `v` under `k`: the key can be encoded,
    /// and the record either stays in the bucket where the key's record is,
    /// or can be taken by the bucket that it belongs in.
    pub open spec fn accepts(&self, k: u64, v: Seq<u8>) -> bool {
        &&& key_encoding(k) matches Some(kb)
        &&& 16 + kb.len() + v.len() < FRAME_LIMIT
        &&& (self.map@.contains_key(k) && self.map@[k].file == slot_size(16 + kb.len() + v.len()))
            || self.lvl2.can_take(kb.len(), v.len())
    }

    /// Whether the store holds `k`.
    pub fn contains(&self, k: &u64) -> (r: bool)
        ensures
            r == self.contents().contains_key(*k),
    {
        broadcast use vstd::std_specs::hash::group_hash_axioms;

        self.map.contains_key(k)
    }

    /// The value bytes under `k`; `Nothing` where the store does not hold it.
    pub fn get(&mut self, k: &u64) -> (r: Result<Vec<u8>, FolderCacheError>)
        requires
            old(self).wf(),
        ensures
            final(self).wf(),
            final(self).contents() == old(self).contents(),
            final(self).lvl2.files@ == old(self).lvl2.files@,
            final(self).map@ == old(self).map@,
            match r {
                Ok(v) => old(self).contents().contains_key(*k) && v@ == old(self).contents()[*k],
                Err(e) => e is Nothing && !old(self).contents().contains_key(*k),
            },
    {
        broadcast use vstd::std_specs::hash::group_hash_axioms;

        if let Some(refv) = self.map.get(k) {
            let refv = *refv;
            return self.lvl2.get_v(refv);
        }
        return Err(FolderCacheError::Nothing);
    }

    /// Stores `v` under `k`, in place of what was there: the record lies in
    /// the bucket that its frame belongs in, and no file shrinks. Fails,
    /// changing nothing of what the store holds, where the key cannot be
    /// encoded (`Encode`) or the record cannot be taken (`IO`).
    pub fn insert(&mut self, k: u64, v: &Vec<u8>) -> (r: Result<(), FolderCacheError>)
        requires
            old(self).wf(),
        ensures
            final(self).wf(),
            old(self).lvl2.grown(final(self).lvl2),
            match r {
                Ok(()) => {
                    &&& final(self).contents() == old(self).contents().insert(k, v@)
                    &&& key_encoding(k) matches Some(kb) && final(self).map@[k].file == slot_size(
                        16 + kb.len() + v@.len(),
                    )
                },
                Err(e) => {
                    &&& final(self).contents() == old(self).contents()
                    &&& e is Encode <==> key_encoding(k) is None
                    &&& e is Encode || e matches FolderCacheError::IO(IoFault::TooLarge)
                },
            },
            r is Ok <==> old(self).accepts(k, v@),
    {
        broadcast use vstd::std_specs::hash::group_hash_axioms;

        let ghost records = self.lvl2.records();
        let ghost index = self.map@;
        if let Some(old_ref) = self.map.get(&k) {
            let old_ref = *old_ref;
            let ghost last = self.lvl2.last_of(old_ref.file);
            proof {
                assert(index.contains_key(k));
                assert(records.contains_key(old_ref));
                assert(self.lvl2.holds(old_ref));
                assert(self.lvl2.holds(last));
                assert(records.contains_key(last));
            }
            match self.lvl2.overwrite(old_ref, &k, v) {
                Err(e) => {
                    return Err(e);
                },
                Ok(None) => {
                    proof {
                        lemma_index_overwrite(records, index, k, v@);
                    }
                },
                Ok(Some((replace_k, new_ref))) => {
                    proof {
                        assert(!records.contains_key(new_ref));
                        lemma_index_migrate(records, index, k, last, new_ref, v@);
                    }
                    self.map.insert(k, new_ref);
                    if let Some(moved_k) = replace_k {
                        self.map.insert(moved_k, old_ref);
                    }
                },
            }
        } else {
            let refv = match self.lvl2.add(&k, v) {
                Ok(r) => r,
                Err(e) => {
                    return Err(e);
                },
            };
            proof {
                assert(!records.contains_key(refv));
                lemma_index_add(records, index, refv, k, v@);
            }
            self.map.insert(k, refv);
        }
        Ok(())
    }

    /// Removes `k` and its value, if the store holds it. No file shrinks.
    pub fn remove(&mut self, k: &u64) -> (r: Result<(), FolderCacheError>)
        requires
            old(self).wf(),
        ensures
            final(self).wf(),
            r is Ok,
            final(self).contents() == old(self).contents().remove(*k),
            forall|size: u64| #[trigger] final(self).lvl2.room(size) == old(self).lvl2.room(size),
    {
        broadcast use vstd::std_specs::hash::group_hash_axioms;

        let ghost records = self.lvl2.records();
        let ghost index = self.map@;
        if let Some(old_ref) = self.map.remove(k) {
            let ghost last = self.lvl2.last_of(old_ref.file);
            proof {
                assert(index.contains_key(*k));
                assert(records.contains_key(old_ref));
                assert(self.lvl2.holds(old_ref));
                assert(self.lvl2.holds(last));
                assert(records.contains_key(last));
                lemma_index_remove(records, index, *k, last);
            }
            let moved = match self.lvl2.remove(old_ref) {
                Ok(m) => m,
                Err(e) => {
                    return Err(e);
                },
            };
            if let Some(other_k) = moved {
                self.map.insert(other_k, old_ref);
            }
            proof {
                assert(self.map@ =~= reindexed(records, index, *k, old_ref, last));
            }
        } else {
            proof {
                assert(self.map@ =~= index);
                assert(self.contents() =~= old(self).contents().remove(*k));
            }
        }
        Ok(())
    }
}

impl FolderCache {
    /// An empty store over a folder from which every bucket file is deleted
    /// first.
    pub fn cleared(folder: Vec<StoredFile>) -> (r: Result<Self, FolderCacheError>)
        ensures
            r matches Ok(store) && store.wf() && store.contents() == Map::<u64, Seq<u8>>::empty()
                && store.lvl2.files@.len() == 0,
    {
        let ghost given = folder@;
        let mut left = folder;
        match clear_cache(&mut left) {
            Ok(()) => {},
            Err(e) => {
                return Err(e);
            },
        }
        proof {
            lemma_others_usable(given);
        }
        let ghost cleared = left@;
        let lvl2 = match CacheLevel2::new(left) {
            Ok(l) => l,
            Err(e) => {
                return Err(e);
            },
        };
        let map = HashMap::new();
        let store = Self { lvl2, map };
        proof {
            broadcast use vstd::std_specs::hash::group_hash_axioms;

            if store.lvl2.files@.len() > 0 {
                assert(from_folder(cleared, store.lvl2.files@[0]));
            }
            assert(store.lvl2.records() =~= Map::<Ref, (u64, Seq<u8>)>::empty());
            assert(store.contents() =~= Map::<u64, Seq<u8>>::empty());
        }
        Ok(store)
    }

    /// The store that a folder holds: its buckets, and the index found by
    /// walking every live slot. Succeeds exactly where the folder is usable,
    /// every bucket in it is well-formed and no two records have the same
    /// key. Fails with what is wrong with the last faulty file of a folder
    /// that is not usable, and otherwise at the first slot that cannot be
    /// indexed: with `Decode` where its key bytes are no key, with `IO`
    /// where it holds no record of its bucket or a key that an earlier slot
    /// has.
    pub fn continued(folder: Vec<StoredFile>) -> (r: Result<Self, FolderCacheError>)
        ensures
            match r {
                Ok(store) => {
                    &&& store.wf()
                    &&& usable(folder@)
                    &&& mirrors(folder@, store.lvl2.files@)
                },
                Err(e) => {
                    &&& forall|store: FolderCache|
                        !(usable(folder@) && #[trigger] store.wf() && mirrors(
                            folder@,
                            store.lvl2.files@,
                        ))
                    &&& if !usable(folder@) {
                        exists|x: int|
                            {
                                &&& 0 <= x < folder@.len()
                                &&& #[trigger] faulty(folder@, x)
                                &&& e matches FolderCacheError::IO(f) && f == fault_of(folder@[x])
                                &&& forall|y: int| x < y < folder@.len() ==> !faulty(folder@, y)
                            }
                    } else {
                        exists|level: CacheLevel2, j: int, i: int|
                            {
                                &&& level.shaped()
                                &&& mirrors(folder@, level.files@)
                                &&& 0 <= j < level.files@.len()
                                &&& 0 <= i < level.files@[j].num_items
                                &&& #[trigger] unindexable(level.files@, j, i)
                                &&& indexable_before(level.files@, j, i)
                                &&& if level.files@[j].undecodable(i) {
                                    e is Decode
                                } else {
                                    e matches FolderCacheError::IO(IoFault::InvalidData)
                                }
                            }
                    }
                },
            },
    {
        let mut lvl2 = match CacheLevel2::new(folder) {
            Ok(l) => l,
            Err(e) => {
                return Err(e);
            },
        };
        let mut map = HashMap::new();
        let ghost loaded = lvl2;
        match lvl2.load_to_hashmap(&mut map) {
            Ok(()) => {},
            Err(e) => {
                proof {
                    assert forall|store: FolderCache|
                        !(usable(folder@) && #[trigger] store.wf() && mirrors(
                            folder@,
                            store.lvl2.files@,
                        )) by {
                        if usable(folder@) && store.wf() && mirrors(folder@, store.lvl2.files@) {
                            lemma_mirrors_same(folder@, loaded, store.lvl2);
                            lemma_indexed_distinct(store.lvl2.records(), store.map@);
                        }
                    }
                }
                return Err(e);
            },
        }
        Ok(Self { lvl2, map })
    }

    /// The files of the store's buckets.
    pub fn into_folder(self) -> (folder: Vec<StoredFile>)
        ensures
            stores(self.lvl2.files@, folder@),
    {
        self.lvl2.into_folder()
    }
}

impl CacheCompatible<u64, Vec<u8>> for FolderCache {
    type Error = FolderCacheError;

    type Model = Seq<u8>;

    open spec fn inv(&self) -> bool {
        self.wf()
    }

    open spec fn stored(&self) -> Map<u64, Seq<u8>> {
        self.contents()
    }

    open spec fn model_of(v: Vec<u8>) -> Seq<u8> {
        v@
    }

    open spec fn lends() -> bool {
        false
    }

    open spec fn serves(&self, k: u64) -> bool {
        self.contents().contains_key(k)
    }

    fn contains(&self, k: u64) -> (r: bool) {
        FolderCache::contains(self, &k)
    }

    fn get(&mut self, k: u64) -> (r: Result<Vec<u8>, FolderCacheError>) {
        FolderCache::get(self, &k)
    }

    /// Does nothing: the store never hands a value over, so it still holds
    /// what comes back. Buckets and index are as they were.
    fn replace(&mut self, k: u64, v: Vec<u8>)
        ensures
            *final(self) == *old(self),
    {
        proof {
            assert(self.contents().insert(k, v@) =~= self.contents());
        }
    }
}

impl CacheMutCompatible<u64, Vec<u8>> for FolderCache {
    open spec fn takes(&self, k: u64, m: Seq<u8>) -> bool {
        self.accepts(k, m)
    }

    open spec fn drops(&self, k: u64) -> bool {
        true
    }

    open spec fn settles(&self) -> bool {
        true
    }

    fn insert(&mut self, k: u64, v: Vec<u8>) -> (r: Result<(), FolderCacheError>) {
        FolderCache::insert(self, k, &v)
    }

    fn remove(&mut self, k: u64) -> (r: Result<(), FolderCacheError>) {
        FolderCache::remove(self, &k)
    }

    fn commit(&mut self) -> (r: Result<(), FolderCacheError>) {
        Ok(())
    }
}

impl FolderCache {
    /// The keys whose records lie in the bucket with slots of `size` bytes.
    pub open spec fn keys_in(&self, size: u64) -> Set<u64> {
        Set::new(|k: u64| self.map@.contains_key(k) && self.map@[k].file == size)
    }

    /// The index leads each key to a live slot whose record has that key:
    /// decoding the key bytes of the slot gives the key.
    pub proof fn lemma_index_leads_to_key(&self, k: u64)
        requires
            self.wf(),
            self.map@.contains_key(k),
        ensures
            present(self.lvl2.files@, self.map@[k].file),
            self.map@[k].index < self.lvl2.bucket(self.map@[k].file).num_items,
            key_decoding(
                key_bytes(self.lvl2.bucket(self.map@[k].file).slot(self.map@[k].index as int)),
            ) == Some(k),
            self.contents()[k] == value_bytes(
                self.lvl2.bucket(self.map@[k].file).slot(self.map@[k].index as int),
            ),
    {
        let r = self.map@[k];
        assert(self.lvl2.records().contains_key(r));
        let j = position(self.lvl2.files@, r.file);
        lemma_position(self.lvl2.files@, j);
        assert(self.lvl2.files@[j].live(r.index as int));
    }

    /// Every record is indexed: the key of each live slot leads to that slot.
    pub proof fn lemma_slot_is_indexed(&self, j: int, i: int)
        requires
            self.wf(),
            0 <= j < self.lvl2.files@.len(),
            0 <= i < self.lvl2.files@[j].num_items,
        ensures
            self.map@.contains_key(self.lvl2.files@[j].key_at(i)),
            self.map@[self.lvl2.files@[j].key_at(i)] == (Ref {
                file: self.lvl2.files@[j].size_per_item,
                index: i as u64,
            }),
    {
        lemma_position(self.lvl2.files@, j);
        let r = Ref { file: self.lvl2.files@[j].size_per_item, index: i as u64 };
        assert(self.lvl2.records().contains_key(r));
    }

    /// The layout of every bucket file: the slot size is a power of two of
    /// at least 32; the number of reserved slots is a power of two of at
    /// least 4; the file is its header and exactly its reserved slots long;
    /// and the header holds the number of live slots, which are no more than
    /// the reserved ones.
    pub proof fn lemma_bucket_layout(&self, j: int)
        requires
            self.wf(),
            0 <= j < self.lvl2.files@.len(),
        ensures
            self.lvl2.files@[j].size_per_item >= 32,
            power_of_two(self.lvl2.files@[j].size_per_item as nat),
            self.lvl2.files@[j].reserved >= 4,
            power_of_two(self.lvl2.files@[j].reserved as nat),
            self.lvl2.files@[j].image@.len() == 8 + self.lvl2.files@[j].reserved
                * self.lvl2.files@[j].size_per_item,
            self.lvl2.files@[j].image@.subrange(0, 8) == spec_u64_to_le_bytes(
                self.lvl2.files@[j].num_items,
            ),
            self.lvl2.files@[j].num_items <= self.lvl2.files@[j].reserved,
    {
        assert(self.lvl2.files@[j].wf());
    }

    /// The number of live slots of a bucket is the number of keys whose
    /// records lie in it.
    pub proof fn lemma_live_count(&self, size: u64)
        requires
            self.wf(),
        ensures
            self.keys_in(size).finite(),
            self.keys_in(size).len() == self.lvl2.count(size),
    {
        let n = self.lvl2.count(size);
        self.lemma_live_below(size, n);
        assert(self.keys_in(size) =~= self.keys_below(size, n)) by {
            assert forall|k: u64| self.keys_in(size).contains(k) implies self.keys_below(
                size,
                n,
            ).contains(k) by {
                assert(self.lvl2.records().contains_key(self.map@[k]));
            }
        }
    }

    /// The keys whose records lie in the first `m` slots of the bucket with
    /// slots of `size` bytes.
    pub open spec fn keys_below(&self, size: u64, m: nat) -> Set<u64> {
        Set::new(
            |k: u64| self.map@.contains_key(k) && self.map@[k].file == size && self.map@[k].index < m,
        )
    }

    /// The first `m` live slots of a bucket hold the records of `m` keys.
    pub proof fn lemma_live_below(&self, size: u64, m: nat)
        requires
            self.wf(),
            m <= self.lvl2.count(size),
        ensures
            self.keys_below(size, m).finite(),
            self.keys_below(size, m).len() == m,
        decreases m,
    {
        if m == 0 {
            assert(self.keys_below(size, 0) =~= Set::<u64>::empty());
        } else {
            let p = (m - 1) as nat;
            self.lemma_live_below(size, p);
            let at = Ref { file: size, index: p as u64 };
            assert(self.lvl2.records().contains_key(at));
            let k = self.lvl2.records()[at].0;
            assert(self.map@.contains_key(k) && self.map@[k] == at);
            assert(!self.keys_below(size, p).contains(k));
            assert(self.keys_below(size, m) =~= self.keys_below(size, p).insert(k)) by {
                assert forall|x: u64| self.keys_below(size, m).contains(x) implies self.keys_below(
                    size,
                    p,
                ).insert(k).contains(x) by {
                    if self.map@[x].index == p {
                        assert(self.lvl2.records().contains_key(self.map@[x]));
                        assert(self.map@[x] == at);
                    }
                }
            }
        }
    }

    /// A store that is made from the files of another holds what the other
    /// held: what was stored is read back after the files were written and
    /// found again.
    pub proof fn lemma_reopen(before: Self, folder: Seq<StoredFile>, after: Self)
        requires
            before.wf(),
            stores(before.lvl2.files@, folder),
            after.wf(),
            mirrors(folder, after.lvl2.files@),
        ensures
            usable(folder),
            mirrors(folder, before.lvl2.files@),
            after.lvl2.records() == before.lvl2.records(),
            after.map@ == before.map@,
            after.contents() == before.contents(),
    {
        lemma_stored_folder(before.lvl2, folder);
        lemma_mirrors_same(folder, before.lvl2, after.lvl2);
        lemma_index_determined(before.lvl2.records(), before.map@, after.map@);
    }
}

} // verus!
