//! The buckets of a folder, sorted by slot size, and the operations on the
//! records in them.

use crate::bucket::{fits, power_of_two, CacheLevel1};
use crate::codec::{encode_key, key_encoding};
use crate::error::{FolderCacheError, IoFault};
use crate::layout::{
    bit_length, bucket_for, lemma_slot_size_bounds, lemma_slot_size_fits, slot_size, FRAME_LIMIT,
};
use vstd::arithmetic::power2::{lemma2_to64, pow2};
use vstd::prelude::*;

verus! {

/// Where a record lies: the slot size of its bucket, and its slot there.
#[derive(Clone, Copy, PartialEq, Eq, Structural, Hash, Debug)]
pub struct Ref {
    pub file: u64,
    pub index: u64,
}

/// The slot sizes grow strictly along `files`.
pub open spec fn sorted(files: Seq<CacheLevel1>) -> bool {
    forall|a: int, b: int|
        0 <= a < b < files.len() ==> (#[trigger] files[a]).size_per_item < (
        #[trigger] files[b]).size_per_item
}

/// One of `files` has slots of `size` bytes.
pub open spec fn present(files: Seq<CacheLevel1>, size: u64) -> bool {
    exists|j: int| 0 <= j < files.len() && (#[trigger] files[j]).size_per_item == size
}

/// Where in `files` the bucket with slots of `size` bytes stands.
pub open spec fn position(files: Seq<CacheLevel1>, size: u64) -> int {
    choose|j: int| 0 <= j < files.len() && (#[trigger] files[j]).size_per_item == size
}

/// The bucket of `files` with slots of `size` bytes.
pub open spec fn bucket_of(files: Seq<CacheLevel1>, size: u64) -> CacheLevel1 {
    files[position(files, size)]
}

/// In a sorted list, a bucket is found by its slot size.
pub proof fn lemma_position(files: Seq<CacheLevel1>, j: int)
    requires
        sorted(files),
        0 <= j < files.len(),
    ensures
        present(files, files[j].size_per_item),
        position(files, files[j].size_per_item) == j,
        bucket_of(files, files[j].size_per_item) == files[j],
{
    let p = position(files, files[j].size_per_item);
    assert(0 <= p < files.len() && files[p].size_per_item == files[j].size_per_item);
    if p < j {
        assert(files[p].size_per_item < files[j].size_per_item);
    } else if j < p {
        assert(files[j].size_per_item < files[p].size_per_item);
    }
}

/// Replacing a bucket by one of the same slot size keeps the order, puts
/// the new bucket under that size and leaves every other bucket as it was.
pub proof fn lemma_update_frame(files: Seq<CacheLevel1>, i: int, b: CacheLevel1)
    requires
        sorted(files),
        0 <= i < files.len(),
        b.size_per_item == files[i].size_per_item,
    ensures
        sorted(files.update(i, b)),
        forall|size: u64| #[trigger] present(files.update(i, b), size) == present(files, size),
        bucket_of(files.update(i, b), b.size_per_item) == b,
        forall|size: u64|
            size != b.size_per_item && present(files, size) ==> #[trigger] bucket_of(
                files.update(i, b),
                size,
            ) == bucket_of(files, size),
{
    let after = files.update(i, b);
    assert forall|x: int, y: int| 0 <= x < y < after.len() implies (
    #[trigger] after[x]).size_per_item < (#[trigger] after[y]).size_per_item by {
        assert(files[x].size_per_item < files[y].size_per_item);
    }
    assert forall|size: u64| #[trigger] present(after, size) == present(files, size) by {
        if present(files, size) {
            let j = position(files, size);
            assert(after[j].size_per_item == size);
        }
        if present(after, size) {
            let j = position(after, size);
            assert(files[j].size_per_item == size);
        }
    }
    lemma_position(after, i);
    assert forall|size: u64| size != b.size_per_item && present(files, size) implies #[trigger] bucket_of(
        after,
        size,
    ) == bucket_of(files, size) by {
        let j = position(files, size);
        lemma_position(files, j);
        assert(after[j] == files[j]);
        lemma_position(after, j);
    }
}

/// Putting a bucket in at its place in the order adds its slot size and
/// leaves every other bucket as it was.
pub proof fn lemma_insert_frame(files: Seq<CacheLevel1>, p: int, b: CacheLevel1)
    requires
        sorted(files),
        0 <= p <= files.len(),
        sorted(files.insert(p, b)),
    ensures
        !present(files, b.size_per_item),
        forall|size: u64|
            #[trigger] present(files.insert(p, b), size) == (present(files, size) || size
                == b.size_per_item),
        bucket_of(files.insert(p, b), b.size_per_item) == b,
        forall|size: u64|
            present(files, size) ==> #[trigger] bucket_of(files.insert(p, b), size) == bucket_of(
                files,
                size,
            ),
{
    let after = files.insert(p, b);
    assert(after[p] == b);
    lemma_position(after, p);
    if present(files, b.size_per_item) {
        let j = position(files, b.size_per_item);
        let j2 = if j < p { j } else { j + 1 };
        assert(after[j2] == files[j]);
        if j2 < p {
            assert(after[j2].size_per_item < after[p].size_per_item);
        } else {
            assert(after[p].size_per_item < after[j2].size_per_item);
        }
    }
    assert forall|size: u64| #[trigger] present(after, size) == (present(files, size) || size
        == b.size_per_item) by {
        if present(files, size) {
            let j = position(files, size);
            let j2 = if j < p { j } else { j + 1 };
            assert(after[j2] == files[j]);
        }
        if present(after, size) && size != b.size_per_item {
            let j2 = position(after, size);
            let j = if j2 < p { j2 } else { j2 - 1 };
            assert(after[j2] == files[j]);
        }
    }
    assert forall|size: u64| present(files, size) implies #[trigger] bucket_of(after, size)
        == bucket_of(files, size) by {
        let j = position(files, size);
        let j2 = if j < p { j } else { j + 1 };
        assert(after[j2] == files[j]);
        lemma_position(after, j2);
    }
}

/// A bucket put in between the smaller and the larger slot sizes keeps the
/// order.
pub proof fn lemma_sorted_insert(files: Seq<CacheLevel1>, p: int, b: CacheLevel1)
    requires
        sorted(files),
        0 <= p <= files.len(),
        forall|j: int| 0 <= j < p ==> (#[trigger] files[j]).size_per_item < b.size_per_item,
        forall|j: int| p <= j < files.len() ==> (#[trigger] files[j]).size_per_item > b.size_per_item,
    ensures
        sorted(files.insert(p, b)),
{
    let after = files.insert(p, b);
    assert forall|x: int, y: int| 0 <= x < y < after.len() implies (
    #[trigger] after[x]).size_per_item < (#[trigger] after[y]).size_per_item by {
        let fx = if x < p { x } else { x - 1 };
        let fy = if y < p { y } else { y - 1 };
        if x != p && y != p {
            assert(files[fx].size_per_item < files[fy].size_per_item);
        } else if x == p {
            assert(files[fy].size_per_item > b.size_per_item);
        } else {
            assert(files[fx].size_per_item < b.size_per_item);
        }
    }
}

/// The records that are left when the one at `r` goes and the one at `last`,
/// the last of the same bucket, moves into its slot.
pub open spec fn without(records: Map<Ref, (u64, Seq<u8>)>, r: Ref, last: Ref) -> Map<
    Ref,
    (u64, Seq<u8>),
> {
    if r == last {
        records.remove(r)
    } else {
        records.remove(last).insert(r, records[last])
    }
}

/// A slot size that a bucket can have: a power of two, at least 32.
pub open spec fn valid_size(size: u64) -> bool {
    size >= 32 && power_of_two(size as nat)
}

/// The slot size of a frame that holds at least an entry header is one that
/// a bucket can have.
pub proof fn lemma_slot_size_valid(full: nat)
    requires
        16 <= full < FRAME_LIMIT,
    ensures
        slot_size(full) <= u64::MAX,
        valid_size(slot_size(full) as u64),
{
    lemma_slot_size_bounds(full);
    lemma_slot_size_fits(full);
    assert(power_of_two(slot_size(full))) by {
        assert(slot_size(full) == pow2(bit_length(full) + 1));
    }
}

/// The buckets of the folder, sorted by slot size, and the slot size of the
/// bucket whose file is open.
pub struct CacheLevel2 {
    pub files: Vec<CacheLevel1>,
    pub open: Option<u64>,
}

impl CacheLevel2 {
    /// The buckets are sorted by slot size and the layout of each is sound.
    pub open spec fn shaped(&self) -> bool {
        &&& sorted(self.files@)
        &&& forall|j: int| 0 <= j < self.files@.len() ==> (#[trigger] self.files@[j]).shape()
    }

    /// The buckets are sorted by slot size and each is well-formed.
    pub open spec fn wf(&self) -> bool {
        &&& sorted(self.files@)
        &&& forall|j: int| 0 <= j < self.files@.len() ==> (#[trigger] self.files@[j]).wf()
    }

    /// The bucket with slots of `size` bytes.
    pub open spec fn bucket(&self, size: u64) -> CacheLevel1 {
        bucket_of(self.files@, size)
    }

    /// `r` names a live slot of a bucket that is there.
    pub open spec fn holds(&self, r: Ref) -> bool {
        present(self.files@, r.file) && r.index < self.bucket(r.file).num_items
    }

    /// The key of the record at `r`.
    pub open spec fn key_of(&self, r: Ref) -> u64 {
        self.bucket(r.file).key_at(r.index as int)
    }

    /// The value bytes of the record at `r`.
    pub open spec fn value_of(&self, r: Ref) -> Seq<u8> {
        self.bucket(r.file).value_at(r.index as int)
    }

    /// Looks for the bucket with slots of `size` bytes: where it stands, or
    /// where it would have to be put in.
    pub fn find(&self, size: u64) -> (r: Result<usize, usize>)
        requires
            sorted(self.files@),
        ensures
            match r {
                Ok(i) => i < self.files@.len() && self.files@[i as int].size_per_item == size,
                Err(i) => {
                    &&& i <= self.files@.len()
                    &&& !present(self.files@, size)
                    &&& forall|j: int| 0 <= j < i ==> (#[trigger] self.files@[j]).size_per_item < size
                    &&& forall|j: int|
                        i <= j < self.files@.len() ==> (#[trigger] self.files@[j]).size_per_item
                            > size
                },
            },
    {
        let mut lo: usize = 0;
        let mut hi: usize = self.files.len();
        while lo < hi
            invariant
                0 <= lo <= hi <= self.files@.len(),
                sorted(self.files@),
                forall|j: int| 0 <= j < lo ==> (#[trigger] self.files@[j]).size_per_item < size,
                forall|j: int|
                    hi <= j < self.files@.len() ==> (#[trigger] self.files@[j]).size_per_item
                        > size,
            decreases hi - lo,
        {
            let mid = lo + (hi - lo) / 2;
            let at = self.files[mid].size_per_item;
            if at == size {
                return Ok(mid);
            } else if at < size {
                assert forall|j: int| 0 <= j < mid + 1 implies (
                #[trigger] self.files@[j]).size_per_item < size by {
                    if j < mid {
                        assert(self.files@[j].size_per_item < self.files@[mid as int].size_per_item);
                    }
                }
                lo = mid + 1;
            } else {
                assert forall|j: int| mid <= j < self.files@.len() implies (
                #[trigger] self.files@[j]).size_per_item > size by {
                    if mid < j {
                        assert(self.files@[mid as int].size_per_item < self.files@[j].size_per_item);
                    }
                }
                hi = mid;
            }
        }
        Err(lo)
    }

    /// Makes the bucket with slots of `size` bytes, empty, unless it is
    /// there. Fails, changing nothing, where its file could not be addressed.
    pub fn new_file(&mut self, size_per_item: u64) -> (r: Result<(), FolderCacheError>)
        requires
            old(self).wf(),
            valid_size(size_per_item),
        ensures
            final(self).open == old(self).open,
            match r {
                Ok(()) => {
                    &&& final(self).wf()
                    &&& present(final(self).files@, size_per_item)
                    &&& present(old(self).files@, size_per_item) ==> final(self).files@ == old(
                        self,
                    ).files@
                    &&& !present(old(self).files@, size_per_item) ==> exists|p: int, fresh: CacheLevel1|
                        {
                            &&& 0 <= p <= old(self).files@.len()
                            &&& fresh.wf()
                            &&& fresh.num_items == 0
                            &&& fresh.reserved == 4
                            &&& fresh.size_per_item == size_per_item
                            &&& #[trigger] old(self).files@.insert(p, fresh) == final(self).files@
                        }
                },
                Err(e) => {
                    &&& e matches FolderCacheError::IO(IoFault::TooLarge)
                    &&& final(self).files@ == old(self).files@
                },
            },
            r is Err <==> !present(old(self).files@, size_per_item) && 8 + 4 * size_per_item
                > usize::MAX,
    {
        let mut lvl1 = CacheLevel1 { num_items: 0, size_per_item, reserved: 4, image: Vec::new() };
        match self.find(size_per_item) {
            Ok(_) => Ok(()),
            Err(insertion_point) => {
                proof {
                    lemma2_to64();
                    assert(power_of_two(4nat)) by {
                        assert(4nat == pow2(2));
                    }
                }
                match lvl1.create_file() {
                    Ok(_) => {},
                    Err(e) => {
                        return Err(e);
                    },
                }
                let ghost before = self.files@;
                self.files.insert(insertion_point, lvl1);
                proof {
                    let after = self.files@;
                    let p = insertion_point as int;
                    assert(after == before.insert(p, lvl1));
                    lemma_sorted_insert(before, p, lvl1);
                    assert forall|j: int| 0 <= j < after.len() implies (#[trigger] after[j]).wf() by {
                        if j < p {
                            assert(before[j].wf());
                        } else if j > p {
                            assert(before[j - 1].wf());
                        }
                    }
                    assert(after[p].size_per_item == size_per_item);
                }
                Ok(())
            },
        }
    }

    /// Number of live slots in the bucket with slots of `size` bytes; zero
    /// where there is no such bucket.
    pub open spec fn count(&self, size: u64) -> nat {
        if present(self.files@, size) {
            self.bucket(size).num_items as nat
        } else {
            0
        }
    }

    /// Number of slots that the file of the bucket with slots of `size` bytes
    /// has room for; zero where there is no such bucket.
    pub open spec fn room(&self, size: u64) -> nat {
        if present(self.files@, size) {
            self.bucket(size).reserved as nat
        } else {
            0
        }
    }

    /// The room of the bucket with slots of `size` bytes once it took one
    /// more record: four slots where the bucket was missing, twice as many
    /// as before where every slot was live, and as many as before otherwise.
    pub open spec fn room_for_one_more(&self, size: u64) -> nat {
        if !present(self.files@, size) {
            4
        } else if self.count(size) == self.room(size) {
            2 * self.room(size)
        } else {
            self.room(size)
        }
    }

    /// The room of the bucket with slots of `size` bytes once it is there:
    /// four slots where it was missing, as many as before otherwise.
    pub open spec fn room_for_one_more_or_same(&self, size: u64) -> nat {
        if !present(self.files@, size) {
            4
        } else {
            self.room(size)
        }
    }

    /// Files only grow: from `self` to `after`, each bucket kept the room it
    /// had or doubled it, and a bucket that is new has room for four slots.
    pub open spec fn grown(&self, after: Self) -> bool {
        forall|size: u64|
            #![trigger after.room(size)]
            after.room(size) == self.room(size) || after.room(size) == self.room_for_one_more(size)
    }

    /// The records of the folder: for each live slot, the key and the value
    /// bytes of the record in it.
    pub open spec fn records(&self) -> Map<Ref, (u64, Seq<u8>)> {
        Map::new(|r: Ref| self.holds(r), |r: Ref| (self.key_of(r), self.value_of(r)))
    }

    /// One more record of `klen` key bytes and `vlen` value bytes can be
    /// stored: its frame has a slot size, and the bucket of that size has
    /// room or can be made.
    pub open spec fn can_take(&self, klen: nat, vlen: nat) -> bool {
        let full = 16 + klen + vlen;
        &&& full < FRAME_LIMIT
        &&& if present(self.files@, slot_size(full) as u64) {
            self.bucket(slot_size(full) as u64).room()
        } else {
            8 + 4 * slot_size(full) <= usize::MAX
        }
    }

    /// Makes the bucket with slots of `size_per_item` bytes the open one,
    /// creating it empty where it is missing, and returns where it stands.
    /// No record changes. Fails, changing nothing, where the bucket is
    /// missing and its file could not be addressed.
    pub fn switch_open(&mut self, size_per_item: u64) -> (r: Result<usize, FolderCacheError>)
        requires
            old(self).wf(),
            valid_size(size_per_item),
        ensures
            final(self).wf(),
            final(self).records() == old(self).records(),
            forall|size: u64| #[trigger] final(self).count(size) == old(self).count(size),
            forall|size: u64|
                #[trigger] final(self).room(size) == (if size == size_per_item && r is Ok {
                    old(self).room_for_one_more_or_same(size)
                } else {
                    old(self).room(size)
                }),
            match r {
                Ok(i) => {
                    &&& i < final(self).files@.len()
                    &&& final(self).files@[i as int].size_per_item == size_per_item
                    &&& final(self).open == Some(size_per_item)
                    &&& forall|size: u64|
                        #[trigger] present(final(self).files@, size) == (present(
                            old(self).files@,
                            size,
                        ) || size == size_per_item)
                    &&& present(old(self).files@, size_per_item) ==> final(self).files@ == old(
                        self,
                    ).files@
                },
                Err(e) => {
                    &&& e matches FolderCacheError::IO(IoFault::TooLarge)
                    &&& final(self).files@ == old(self).files@
                },
            },
            r is Err <==> !present(old(self).files@, size_per_item) && 8 + 4 * size_per_item
                > usize::MAX,
    {
        if let Some(old_size) = self.open {
            if size_per_item == old_size {
                if let Ok(i) = self.find(size_per_item) {
                    proof {
                        lemma_position(self.files@, i as int);
                    }
                    return Ok(i);
                }
            }
            self.open = None;
        }
        let ghost before = *self;
        match self.find(size_per_item) {
            Ok(i) => {
                proof {
                    lemma_position(self.files@, i as int);
                }
                self.open = Some(size_per_item);
                Ok(i)
            },
            Err(i) => {
                match self.new_file(size_per_item) {
                    Ok(()) => {},
                    Err(e) => {
                        return Err(e);
                    },
                }
                self.open = Some(size_per_item);
                proof {
                    let (p, fresh) = choose|p: int, fresh: CacheLevel1|
                        {
                            &&& 0 <= p <= before.files@.len()
                            &&& fresh.wf()
                            &&& fresh.num_items == 0
                            &&& fresh.reserved == 4
                            &&& fresh.size_per_item == size_per_item
                            &&& #[trigger] before.files@.insert(p, fresh) == self.files@
                        };
                    lemma_insert_frame(before.files@, p, fresh);
                    assert(self.files@[p] == fresh);
                    if p < i {
                        assert(before.files@[p].size_per_item < size_per_item);
                        assert(self.files@[p + 1] == before.files@[p]);
                        assert(self.files@[p].size_per_item < self.files@[p + 1].size_per_item);
                    } else if p > i {
                        assert(before.files@[i as int].size_per_item > size_per_item);
                        assert(self.files@[i as int] == before.files@[i as int]);
                        assert(self.files@[i as int].size_per_item < self.files@[p].size_per_item);
                    }
                    assert(p == i);
                    assert forall|size: u64| #[trigger] self.count(size) == before.count(
                        size,
                    ) by {}
                    assert forall|size: u64| #[trigger] self.room(size) == (if size
                        == size_per_item {
                        before.room_for_one_more_or_same(size)
                    } else {
                        before.room(size)
                    }) by {}
                    assert(self.records() =~= before.records());
                }
                Ok(i)
            },
        }
    }
    /// The last live slot of the bucket with slots of `size` bytes.
    pub open spec fn last_of(&self, size: u64) -> Ref {
        Ref { file: size, index: (self.count(size) - 1) as u64 }
    }

    /// The value bytes of the record at `r`.
    pub fn get_v(&mut self, r: Ref) -> (out: Result<Vec<u8>, FolderCacheError>)
        requires
            old(self).wf(),
            old(self).holds(r),
        ensures
            final(self).wf(),
            final(self).files@ == old(self).files@,
            final(self).records() == old(self).records(),
            out matches Ok(v) && v@ == old(self).value_of(r),
    {
        proof {
            lemma_position(self.files@, position(self.files@, r.file));
        }
        let i = match self.switch_open(r.file) {
            Ok(i) => i,
            Err(e) => {
                return Err(e);
            },
        };
        proof {
            lemma_position(self.files@, i as int);
            assert(self.files@[i as int].live(r.index as int));
        }
        self.files[i].read_v(r.index)
    }

    /// Key and value bytes of the record at `r`.
    pub fn get(&mut self, r: Ref) -> (out: Result<(u64, Vec<u8>), FolderCacheError>)
        requires
            old(self).wf(),
            old(self).holds(r),
        ensures
            final(self).wf(),
            final(self).files@ == old(self).files@,
            final(self).records() == old(self).records(),
            out matches Ok((k, v)) && k == old(self).key_of(r) && v@ == old(self).value_of(r),
    {
        proof {
            lemma_position(self.files@, position(self.files@, r.file));
        }
        let i = match self.switch_open(r.file) {
            Ok(i) => i,
            Err(e) => {
                return Err(e);
            },
        };
        proof {
            lemma_position(self.files@, i as int);
            assert(self.files@[i as int].live(r.index as int));
        }
        self.files[i].read(r.index)
    }

    /// The value bytes of the first record among those at `refs` whose key is
    /// `k`; `None` where none of them has that key.
    pub fn get_v_against_k(&mut self, k: &u64, refs: &[Ref]) -> (out: Result<
        Option<Vec<u8>>,
        FolderCacheError,
    >)
        requires
            old(self).wf(),
            forall|x: int| 0 <= x < refs@.len() ==> old(self).holds(#[trigger] refs@[x]),
        ensures
            final(self).wf(),
            final(self).files@ == old(self).files@,
            final(self).records() == old(self).records(),
            match out {
                Ok(Some(v)) => exists|x: int|
                    {
                        &&& 0 <= x < refs@.len()
                        &&& old(self).key_of(#[trigger] refs@[x]) == *k
                        &&& v@ == old(self).value_of(refs@[x])
                        &&& forall|y: int| 0 <= y < x ==> old(self).key_of(#[trigger] refs@[y]) != *k
                    },
                Ok(None) => forall|x: int|
                    0 <= x < refs@.len() ==> old(self).key_of(#[trigger] refs@[x]) != *k,
                Err(_) => false,
            },
    {
        let ghost before = *self;
        let mut x: usize = 0;
        while x < refs.len()
            invariant
                before == *old(self),
                0 <= x <= refs@.len(),
                self.wf(),
                self.files@ == before.files@,
                self.records() == before.records(),
                forall|y: int| 0 <= y < refs@.len() ==> before.holds(#[trigger] refs@[y]),
                forall|y: int| 0 <= y < x ==> before.key_of(#[trigger] refs@[y]) != *k,
            decreases refs@.len() - x,
        {
            let at = refs[x];
            assert(before.holds(refs@[x as int]));
            let (test_k, v) = match self.get(at) {
                Ok(pair) => pair,
                Err(e) => {
                    return Err(e);
                },
            };
            if *k == test_k {
                return Ok(Some(v));
            }
            x += 1;
        }
        Ok(None)
    }

    /// Removes the record at `r`; the last record of its bucket moves into
    /// the slot. Returns the key of the record that moved, if one did.
    pub fn remove(&mut self, r: Ref) -> (out: Result<Option<u64>, FolderCacheError>)
        requires
            old(self).wf(),
            old(self).holds(r),
        ensures
            final(self).wf(),
            final(self).records() == without(
                old(self).records(),
                r,
                old(self).last_of(r.file),
            ),
            forall|size: u64|
                #[trigger] final(self).count(size) == old(self).count(size) - (if size == r.file {
                    1int
                } else {
                    0int
                }),
            forall|size: u64|
                #[trigger] present(final(self).files@, size) == present(old(self).files@, size),
            forall|size: u64|
                size != r.file && present(old(self).files@, size) ==> #[trigger] final(self).bucket(
                    size,
                ) == old(self).bucket(size),
            forall|size: u64| #[trigger] final(self).room(size) == old(self).room(size),
            out matches Ok(moved) && moved == (if r == old(self).last_of(r.file) {
                None
            } else {
                Some(old(self).records()[old(self).last_of(r.file)].0)
            }),
    {
        let ghost before = *self;
        proof {
            lemma_position(self.files@, position(self.files@, r.file));
        }
        let i = match self.switch_open(r.file) {
            Ok(i) => i,
            Err(e) => {
                return Err(e);
            },
        };
        proof {
            lemma_position(self.files@, i as int);
        }
        let ghost was = self.files@[i as int];
        let moved = self.files[i].swap_remove(r.index);
        proof {
            let now = self.files@[i as int];
            let last = before.last_of(r.file);
            assert(self.files@ =~= before.files@.update(i as int, now));
            lemma_update_frame(before.files@, i as int, now);
            assert forall|j: int| 0 <= j < self.files@.len() implies (
            #[trigger] self.files@[j]).wf() by {
                if j != i {
                    assert(before.files@[j].wf());
                }
            }
            assert forall|size: u64| #[trigger] self.count(size) == before.count(size) - (if size
                == r.file {
                1int
            } else {
                0int
            }) by {}
            let expect = without(before.records(), r, last);
            assert forall|x: Ref| #[trigger] self.records().dom().contains(x) == expect.dom().contains(x) by {}
            assert forall|x: Ref| self.records().dom().contains(x) implies #[trigger] self.records()[x] == expect[x] by {
                if x.file == r.file {
                    assert(now.slot(x.index as int) == (if x.index == r.index {
                        was.slot(was.num_items - 1)
                    } else {
                        was.slot(x.index as int)
                    }));
                }
            }
            assert(self.records() =~= expect);
        }
        moved
    }
    /// The slot size for a record of these key and value bytes, where their
    /// frame has one.
    fn target(kser: &Vec<u8>, vser: &Vec<u8>) -> (r: Option<u64>)
        ensures
            match r {
                Some(file) => {
                    &&& 16 + kser@.len() + vser@.len() < FRAME_LIMIT
                    &&& file == slot_size(16 + kser@.len() + vser@.len())
                    &&& fits(kser@, vser@, file)
                    &&& valid_size(file)
                },
                None => 16 + kser@.len() + vser@.len() >= FRAME_LIMIT,
            },
    {
        let both = match (kser.len() as u64).checked_add(vser.len() as u64) {
            Some(n) => n,
            None => {
                return None;
            },
        };
        let full_len = match both.checked_add(16) {
            Some(n) => n,
            None => {
                return None;
            },
        };
        let file = bucket_for(full_len);
        proof {
            if full_len < FRAME_LIMIT {
                lemma_slot_size_valid(full_len as nat);
            }
        }
        file
    }

    /// Adds the record of `k` and `v` to the bucket that its frame belongs
    /// in, creating the bucket where it is missing, and returns where the
    /// record lies. Fails, changing no record, where the key cannot be
    /// encoded or the record cannot be taken.
    pub fn add(&mut self, k: &u64, v: &Vec<u8>) -> (r: Result<Ref, FolderCacheError>)
        requires
            old(self).wf(),
        ensures
            final(self).wf(),
            match r {
                Ok(at) => {
                    &&& key_encoding(*k) matches Some(kb) && at.file == slot_size(
                        16 + kb.len() + v@.len(),
                    )
                    &&& at.index == old(self).count(at.file)
                    &&& final(self).records() == old(self).records().insert(at, (*k, v@))
                    &&& forall|size: u64|
                        #[trigger] final(self).count(size) == old(self).count(size) + (if size
                            == at.file {
                            1int
                        } else {
                            0int
                        })
                    &&& forall|size: u64|
                        #[trigger] final(self).room(size) == (if size == at.file {
                            old(self).room_for_one_more(size)
                        } else {
                            old(self).room(size)
                        })
                },
                Err(e) => {
                    &&& final(self).records() == old(self).records()
                    &&& forall|size: u64| #[trigger] final(self).count(size) == old(self).count(size)
                    &&& forall|size: u64| #[trigger] final(self).room(size) == old(self).room(size)
                    &&& e is Encode || e matches FolderCacheError::IO(IoFault::TooLarge)
                },
            },
            r matches Err(FolderCacheError::Encode(_)) <==> key_encoding(*k) is None,
            r matches Err(FolderCacheError::IO(_)) <==> (key_encoding(*k) matches Some(kb)
                && !old(self).can_take(kb.len(), v@.len())),
    {
        let ghost before = *self;
        let kser = match encode_key(k) {
            Ok(b) => b,
            Err(e) => {
                return Err(FolderCacheError::Encode(e));
            },
        };
        let file = match Self::target(&kser, v) {
            Some(f) => f,
            None => {
                return Err(FolderCacheError::IO(IoFault::TooLarge));
            },
        };
        let i = match self.switch_open(file) {
            Ok(i) => i,
            Err(e) => {
                return Err(e);
            },
        };
        let ghost mid = *self;
        proof {
            lemma_position(mid.files@, i as int);
        }
        let added = self.files[i].add(&kser, v);
        proof {
            let now = self.files@[i as int];
            assert(self.files@ =~= mid.files@.update(i as int, now));
            lemma_update_frame(mid.files@, i as int, now);
        }
        match added {
            Err(e) => {
                proof {
                    assert(self.files@ =~= mid.files@);
                }
                Err(e)
            },
            Ok(index) => {
                let at = Ref { file, index };
                proof {
                    let now = self.files@[i as int];
                    let was = mid.files@[i as int];
                    assert forall|j: int| 0 <= j < self.files@.len() implies (
                    #[trigger] self.files@[j]).wf() by {
                        if j != i {
                            assert(mid.files@[j].wf());
                        }
                    }
                    assert forall|size: u64| #[trigger] self.count(size) == before.count(size) + (
                    if size == at.file {
                        1int
                    } else {
                        0int
                    }) by {
                        assert(mid.count(size) == before.count(size));
                    }
                    assert forall|size: u64| #[trigger] self.room(size) == (if size == at.file {
                        before.room_for_one_more(size)
                    } else {
                        before.room(size)
                    }) by {
                        assert(mid.count(size) == before.count(size));
                        assert(mid.room(size) == (if size == file {
                            before.room_for_one_more_or_same(size)
                        } else {
                            before.room(size)
                        }));
                    }
                    let expect = before.records().insert(at, (*k, v@));
                    assert(mid.count(file) == before.count(file));
                    assert forall|x: Ref| #[trigger] self.records().dom().contains(x)
                        == expect.dom().contains(x) by {
                        assert(mid.records().dom().contains(x) == before.records().dom().contains(
                            x,
                        ));
                        assert(mid.count(x.file) == before.count(x.file));
                    }
                    assert forall|x: Ref| self.records().dom().contains(x) implies #[trigger] self.records()[x]
                        == expect[x] by {
                        if x != at {
                            assert(mid.records().dom().contains(x));
                            assert(mid.records()[x] == before.records()[x]);
                            if x.file == file {
                                assert(now.slot(x.index as int) == was.slot(x.index as int));
                            }
                        }
                    }
                    assert(self.records() =~= expect);
                    assert(at.index == before.count(at.file));
                    assert(key_encoding(*k) == Some(kser@));
                    assert(at.file == slot_size(16 + kser@.len() + v@.len()));
                    assert(self.wf());
                }
                Ok(at)
            },
        }
    }
    /// Stores the record of `k` and `v` in place of the one at `old_ref`. A
    /// record that still belongs in the same bucket is written over the old
    /// one, and `None` comes back. Otherwise the old record is removed as
    /// `remove` does, the new one is added as `add` does, and the key of the
    /// record that moved, if any, comes back with the place of the new
    /// record. Fails, changing no record, where the key cannot be encoded or
    /// the record cannot be taken.
    pub fn overwrite(&mut self, old_ref: Ref, k: &u64, v: &Vec<u8>) -> (r: Result<
        Option<(Option<u64>, Ref)>,
        FolderCacheError,
    >)
        requires
            old(self).wf(),
            old(self).holds(old_ref),
        ensures
            final(self).wf(),
            match r {
                Ok(None) => {
                    &&& key_encoding(*k) matches Some(kb) && old_ref.file == slot_size(
                        16 + kb.len() + v@.len(),
                    )
                    &&& final(self).records() == old(self).records().insert(old_ref, (*k, v@))
                    &&& forall|size: u64| #[trigger] final(self).count(size) == old(self).count(size)
                    &&& forall|size: u64| #[trigger] final(self).room(size) == old(self).room(size)
                },
                Ok(Some((moved, at))) => {
                    &&& key_encoding(*k) matches Some(kb) && at.file == slot_size(
                        16 + kb.len() + v@.len(),
                    )
                    &&& at.file != old_ref.file
                    &&& at.index == old(self).count(at.file)
                    &&& moved == (if old_ref == old(self).last_of(old_ref.file) {
                        None
                    } else {
                        Some(old(self).records()[old(self).last_of(old_ref.file)].0)
                    })
                    &&& final(self).records() == without(
                        old(self).records(),
                        old_ref,
                        old(self).last_of(old_ref.file),
                    ).insert(at, (*k, v@))
                    &&& forall|size: u64|
                        #[trigger] final(self).count(size) == old(self).count(size) + (if size
                            == at.file {
                            1int
                        } else if size == old_ref.file {
                            -1int
                        } else {
                            0int
                        })
                    &&& forall|size: u64|
                        #[trigger] final(self).room(size) == (if size == at.file {
                            old(self).room_for_one_more(size)
                        } else {
                            old(self).room(size)
                        })
                },
                Err(e) => {
                    &&& final(self).records() == old(self).records()
                    &&& forall|size: u64| #[trigger] final(self).count(size) == old(self).count(size)
                    &&& forall|size: u64| #[trigger] final(self).room(size) == old(self).room(size)
                    &&& e is Encode || e matches FolderCacheError::IO(IoFault::TooLarge)
                },
            },
            r matches Err(FolderCacheError::Encode(_)) <==> key_encoding(*k) is None,
            r matches Err(FolderCacheError::IO(_)) <==> (key_encoding(*k) matches Some(kb) && (16
                + kb.len() + v@.len() >= FRAME_LIMIT || (slot_size(16 + kb.len() + v@.len())
                != old_ref.file && !old(self).can_take(kb.len(), v@.len())))),
    {
        let ghost before = *self;
        let kser = match encode_key(k) {
            Ok(b) => b,
            Err(e) => {
                return Err(FolderCacheError::Encode(e));
            },
        };
        let file = match Self::target(&kser, v) {
            Some(f) => f,
            None => {
                return Err(FolderCacheError::IO(IoFault::TooLarge));
            },
        };
        proof {
            lemma_position(self.files@, position(self.files@, old_ref.file));
        }
        if file == old_ref.file {
            let i = match self.switch_open(file) {
                Ok(i) => i,
                Err(e) => {
                    return Err(e);
                },
            };
            proof {
                lemma_position(self.files@, i as int);
            }
            let ghost was = self.files@[i as int];
            let written = self.files[i].overwrite(old_ref.index, &kser, v);
            proof {
                let now = self.files@[i as int];
                assert(self.files@ =~= before.files@.update(i as int, now));
                lemma_update_frame(before.files@, i as int, now);
                assert forall|j: int| 0 <= j < self.files@.len() implies (
                #[trigger] self.files@[j]).wf() by {
                    if j != i {
                        assert(before.files@[j].wf());
                    }
                }
                assert forall|size: u64| #[trigger] self.count(size) == before.count(size) by {}
                let expect = before.records().insert(old_ref, (*k, v@));
                assert forall|x: Ref| #[trigger] self.records().dom().contains(x)
                    == expect.dom().contains(x) by {}
                assert forall|x: Ref| self.records().dom().contains(x) implies #[trigger] self.records()[x]
                    == expect[x] by {
                    if x != old_ref && x.file == file {
                        assert(now.slot(x.index as int) == was.slot(x.index as int));
                    }
                }
                assert(self.records() =~= expect);
            }
            match written {
                Ok(()) => Ok(None),
                Err(e) => Err(e),
            }
        } else {
            let i = match self.switch_open(file) {
                Ok(i) => i,
                Err(e) => {
                    return Err(e);
                },
            };
            proof {
                lemma_position(self.files@, i as int);
            }
            if !self.files[i].has_room() {
                proof {
                    assert(self.count(file) == before.count(file));
                    assert(present(before.files@, file));
                }
                return Err(FolderCacheError::IO(IoFault::TooLarge));
            }
            let ghost mid = *self;
            proof {
                assert(before.records().dom().contains(old_ref));
                assert(mid.records().dom().contains(old_ref));
            }
            let replace_ref = match self.remove(old_ref) {
                Ok(m) => m,
                Err(e) => {
                    return Err(e);
                },
            };
            let ghost gone = *self;
            proof {
                assert(present(gone.files@, file) == present(mid.files@, file));
                assert(gone.bucket(file) == mid.bucket(file));
                assert(gone.can_take(kser@.len(), v@.len()));
            }
            let at = match self.add(k, v) {
                Ok(at) => at,
                Err(e) => {
                    return Err(e);
                },
            };
            proof {
                assert(mid.last_of(old_ref.file) == before.last_of(old_ref.file));
                assert forall|size: u64| #[trigger] self.count(size) == before.count(size) + (if size
                    == at.file {
                    1int
                } else if size == old_ref.file {
                    -1int
                } else {
                    0int
                }) by {
                    assert(mid.count(size) == before.count(size));
                    assert(gone.count(size) == mid.count(size) - (if size == old_ref.file {
                        1int
                    } else {
                        0int
                    }));
                }
            }
            Ok(Some((replace_ref, at)))
        }
    }
}

} // verus!
