//! Finding the index of a folder: every live slot of every bucket is walked
//! and its key noted.

use crate::bucket::CacheLevel1;
use crate::error::{FolderCacheError, IoFault};
use crate::index::indexed;
use crate::level2::{bucket_of, lemma_position, position, present, sorted, CacheLevel2, Ref};
use std::collections::HashMap;
use vstd::prelude::*;

verus! {

/// `r` names a live slot that lies before slot `i` of bucket `j`, in the
/// order in which the slots are walked: bucket by bucket, slot by slot.
pub open spec fn scanned(files: Seq<CacheLevel1>, j: int, i: int, r: Ref) -> bool {
    &&& present(files, r.file)
    &&& r.index < bucket_of(files, r.file).num_items
    &&& position(files, r.file) < j || (position(files, r.file) == j && r.index < i)
}

/// `index` is the index of the slots walked so far: it leads from the key
/// of each to its slot, and to nothing else.
pub open spec fn scan_inv(files: Seq<CacheLevel1>, j: int, i: int, index: Map<u64, Ref>) -> bool {
    &&& forall|k: u64|
        #![trigger index.contains_key(k)]
        index.contains_key(k) ==> scanned(files, j, i, index[k]) && bucket_of(
            files,
            index[k].file,
        ).key_at(index[k].index as int) == k
    &&& forall|r: Ref|
        #![trigger scanned(files, j, i, r)]
        scanned(files, j, i, r) ==> index.contains_key(
            bucket_of(files, r.file).key_at(r.index as int),
        ) && index[bucket_of(files, r.file).key_at(r.index as int)] == r
}

/// Slot `i` of bucket `j` cannot be indexed: it is not live, or a slot that
/// lies before it has the same key.
pub open spec fn unindexable(files: Seq<CacheLevel1>, j: int, i: int) -> bool {
    ||| !files[j].live(i)
    ||| exists|r: Ref|
        #[trigger] scanned(files, j, i, r) && bucket_of(files, r.file).key_at(r.index as int)
            == files[j].key_at(i)
}

/// Every slot before slot `i` of bucket `j` can be indexed.
pub open spec fn indexable_before(files: Seq<CacheLevel1>, j: int, i: int) -> bool {
    forall|r: Ref|
        #[trigger] scanned(files, j, i, r) ==> !unindexable(
            files,
            position(files, r.file),
            r.index as int,
        )
}

/// The slots that were walked and indexed can be indexed.
pub proof fn lemma_scanned_indexable(
    files: Seq<CacheLevel1>,
    j: int,
    i: int,
    index: Map<u64, Ref>,
)
    requires
        sorted(files),
        0 <= j <= files.len(),
        j < files.len() ==> 0 <= i <= files[j].num_items,
        scan_inv(files, j, i, index),
        forall|x: int| 0 <= x < j ==> (#[trigger] files[x]).wf(),
        j < files.len() ==> forall|x: int| 0 <= x < i ==> #[trigger] files[j].live(x),
    ensures
        indexable_before(files, j, i),
{
    assert forall|r: Ref| #[trigger] scanned(files, j, i, r) implies !unindexable(
        files,
        position(files, r.file),
        r.index as int,
    ) by {
        let p = position(files, r.file);
        lemma_position(files, p);
        assert(files[p].live(r.index as int)) by {
            if p < j {
                assert(files[p].wf());
            }
        }
        assert forall|q: Ref| #[trigger] scanned(files, p, r.index as int, q) implies bucket_of(
            files,
            q.file,
        ).key_at(q.index as int) != files[p].key_at(r.index as int) by {
            lemma_position(files, position(files, q.file));
            assert(scanned(files, j, i, q));
            assert(q != r);
        }
    }
}

/// No two records have the same key.
pub open spec fn distinct_keys(records: Map<Ref, (u64, Seq<u8>)>) -> bool {
    forall|a: Ref, b: Ref|
        #![trigger records.contains_key(a), records.contains_key(b)]
        records.contains_key(a) && records.contains_key(b) && a != b ==> records[a].0
            != records[b].0
}

/// Records that have an index have no key twice.
pub proof fn lemma_indexed_distinct(records: Map<Ref, (u64, Seq<u8>)>, index: Map<u64, Ref>)
    requires
        indexed(records, index),
    ensures
        distinct_keys(records),
{
}

/// Walking one more slot, whose key is new, extends the index by that key.
pub proof fn lemma_scan_step(
    files: Seq<CacheLevel1>,
    j: int,
    i: int,
    index: Map<u64, Ref>,
)
    requires
        sorted(files),
        0 <= j < files.len(),
        0 <= i < files[j].num_items,
        scan_inv(files, j, i, index),
        !index.contains_key(files[j].key_at(i)),
    ensures
        scan_inv(
            files,
            j,
            i + 1,
            index.insert(files[j].key_at(i), Ref { file: files[j].size_per_item, index: i as u64 }),
        ),
{
    let at = Ref { file: files[j].size_per_item, index: i as u64 };
    let k0 = files[j].key_at(i);
    let index2 = index.insert(k0, at);
    lemma_position(files, j);
    assert forall|r: Ref| scanned(files, j, i + 1, r) == (scanned(files, j, i, r) || r == at) by {}
    assert forall|k: u64| #![trigger index2.contains_key(k)] index2.contains_key(k) implies scanned(
        files,
        j,
        i + 1,
        index2[k],
    ) && bucket_of(files, index2[k].file).key_at(index2[k].index as int) == k by {
        if k != k0 {
            assert(index.contains_key(k));
        }
    }
    assert forall|r: Ref| #![trigger scanned(files, j, i + 1, r)] scanned(files, j, i + 1, r) implies index2.contains_key(
        bucket_of(files, r.file).key_at(r.index as int),
    ) && index2[bucket_of(files, r.file).key_at(r.index as int)] == r by {
        if r != at {
            assert(scanned(files, j, i, r));
        }
    }
}

/// The slots before the end of one bucket are the slots before the start of
/// the next.
pub proof fn lemma_scan_next(files: Seq<CacheLevel1>, j: int, index: Map<u64, Ref>)
    requires
        sorted(files),
        0 <= j < files.len(),
        scan_inv(files, j, files[j].num_items as int, index),
    ensures
        scan_inv(files, j + 1, 0, index),
{
    lemma_position(files, j);
    assert forall|r: Ref| scanned(files, j + 1, 0, r) == scanned(
        files,
        j,
        files[j].num_items as int,
        r,
    ) by {
        if present(files, r.file) {
            lemma_position(files, position(files, r.file));
        }
    }
    assert forall|k: u64| #![trigger index.contains_key(k)] index.contains_key(k) implies scanned(
        files,
        j + 1,
        0,
        index[k],
    ) && bucket_of(files, index[k].file).key_at(index[k].index as int) == k by {}
    assert forall|r: Ref| #![trigger scanned(files, j + 1, 0, r)] scanned(files, j + 1, 0, r) implies index.contains_key(
        bucket_of(files, r.file).key_at(r.index as int),
    ) && index[bucket_of(files, r.file).key_at(r.index as int)] == r by {
        assert(scanned(files, j, files[j].num_items as int, r));
    }
}

impl CacheLevel2 {
    /// Walks every live slot of every bucket and puts the key of each into
    /// `map`, which comes empty. Succeeds exactly where every bucket is
    /// well-formed and no two records have the same key. Fails at the first
    /// slot that cannot be indexed: with `Decode` where its key bytes are no
    /// key, with `IO` otherwise.
    pub fn load_to_hashmap(&mut self, map: &mut HashMap<u64, Ref>) -> (r: Result<
        (),
        FolderCacheError,
    >)
        requires
            old(self).shaped(),
            old(map)@ == Map::<u64, Ref>::empty(),
        ensures
            final(self).files@ == old(self).files@,
            final(self).open is None,
            r is Ok <==> old(self).wf() && distinct_keys(old(self).records()),
            r is Ok ==> indexed(final(self).records(), final(map)@),
            r matches Err(e) ==> exists|j: int, i: int|
                {
                    &&& 0 <= j < old(self).files@.len()
                    &&& 0 <= i < old(self).files@[j].num_items
                    &&& #[trigger] unindexable(old(self).files@, j, i)
                    &&& indexable_before(old(self).files@, j, i)
                    &&& if old(self).files@[j].undecodable(i) {
                        e is Decode
                    } else {
                        e matches FolderCacheError::IO(IoFault::InvalidData)
                    }
                },
    {
        broadcast use vstd::std_specs::hash::group_hash_axioms;

        if let Some(_) = self.open {
            self.open = None;
        }
        let ghost files = self.files@;
        let count = self.files.len();
        let mut filen: usize = 0;
        while filen < count
            invariant
                0 <= filen <= count,
                count == files.len(),
                self.files@ == files,
                self.open is None,
                self.shaped(),
                files == old(self).files@,
                forall|j: int| 0 <= j < filen ==> (#[trigger] files[j]).wf(),
                scan_inv(files, filen as int, 0, map@),
            decreases count - filen,
        {
            let items = self.files[filen].num_items;
            let size = self.files[filen].size_per_item;
            let mut i: u64 = 0;
            while i < items
                invariant
                    0 <= filen < count,
                    count == files.len(),
                    self.files@ == files,
                    self.open is None,
                    self.shaped(),
                    files == old(self).files@,
                    items == files[filen as int].num_items,
                    size == files[filen as int].size_per_item,
                    0 <= i <= items,
                    forall|j: int| 0 <= j < filen ==> (#[trigger] files[j]).wf(),
                    forall|x: int| 0 <= x < i ==> #[trigger] files[filen as int].live(x),
                    scan_inv(files, filen as int, i as int, map@),
                decreases items - i,
            {
                assert(files[filen as int].shape());
                proof {
                    lemma_scanned_indexable(files, filen as int, i as int, map@);
                }
                let k = match self.files[filen].read_k(i) {
                    Ok(k) => k,
                    Err(e) => {
                        proof {
                            assert(!files[filen as int].live(i as int));
                            assert(!files[filen as int].wf());
                            assert(unindexable(files, filen as int, i as int));
                        }
                        return Err(e);
                    },
                };
                if map.contains_key(&k) {
                    proof {
                        let first = map@[k];
                        let at = Ref { file: size, index: i };
                        lemma_position(files, filen as int);
                        assert(scanned(files, filen as int, i as int, first));
                        assert(unindexable(files, filen as int, i as int));
                        if old(self).wf() {
                            assert(old(self).records().contains_key(first));
                            assert(old(self).records().contains_key(at));
                            assert(first != at);
                            assert(old(self).records()[first].0 == old(self).records()[at].0);
                        }
                    }
                    return Err(FolderCacheError::IO(IoFault::InvalidData));
                }
                proof {
                    lemma_scan_step(files, filen as int, i as int, map@);
                }
                map.insert(k, Ref { file: size, index: i });
                i += 1;
            }
            proof {
                lemma_scan_next(files, filen as int, map@);
            }
            filen += 1;
        }
        proof {
            assert(self.wf());
            let records = self.records();
            assert forall|r: Ref| scanned(files, count as int, 0, r) == records.contains_key(r) by {
                if present(files, r.file) {
                    lemma_position(files, position(files, r.file));
                }
            }
            assert forall|k: u64| #![trigger map@.contains_key(k)] map@.contains_key(k) implies records.contains_key(
                map@[k],
            ) && records[map@[k]].0 == k by {
                assert(scanned(files, count as int, 0, map@[k]));
            }
            assert forall|r: Ref| #![trigger records.contains_key(r)] records.contains_key(r) implies map@.contains_key(
                records[r].0,
            ) && map@[records[r].0] == r by {
                assert(scanned(files, count as int, 0, r));
            }
            assert(old(self).records() =~= records);
            assert(old(self).wf());
        }
        Ok(())
    }
}

} // verus!
