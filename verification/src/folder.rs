//! A folder as plain values: the files with their names and bytes, and how
//! they become the buckets of a store and come back out of it.

use crate::bucket::CacheLevel1;
use crate::error::{FolderCacheError, IoFault};
use crate::level2::{
    bucket_of, lemma_insert_frame, lemma_position, lemma_sorted_insert, position, present, sorted,
    CacheLevel2,
};
use crate::names::{bucket_name, lemma_name_reads_back, parse_name, read_name};
use vstd::arithmetic::div_mod::lemma_div_by_multiple;
use vstd::bytes::{lemma_auto_spec_u64_to_from_le_bytes, spec_u64_from_le_bytes};
use vstd::prelude::*;

verus! {

/// A file of the folder: its name and its bytes.
#[derive(Debug)]
pub struct StoredFile {
    pub name: String,
    pub bytes: Vec<u8>,
}

/// The bucket that a stored file holds, where its name is that of a bucket
/// file: the slot size from the name, the number of live slots from the
/// file header, and as many reserved slots as fit in the file.
pub open spec fn level_of(file: StoredFile) -> CacheLevel1 {
    let size = parse_name(file.name@)->Some_0;
    CacheLevel1 {
        size_per_item: size,
        num_items: spec_u64_from_le_bytes(file.bytes@.subrange(0, 8)),
        reserved: ((file.bytes@.len() - 8) / (size as int)) as u64,
        image: file.bytes,
    }
}

/// The file is no bucket file, or it is one that can be used: it is stored
/// under the name that its slot size gives, and its layout is sound.
pub open spec fn usable_file(file: StoredFile) -> bool {
    parse_name(file.name@) matches Some(size) ==> {
        &&& file.name@ == bucket_name(size as nat)
        &&& file.bytes@.len() >= 8
        &&& level_of(file).shape()
    }
}

/// Every file of the folder is usable, and no two bucket files have the same
/// slot size.
pub open spec fn usable(folder: Seq<StoredFile>) -> bool {
    &&& forall|x: int| 0 <= x < folder.len() ==> usable_file(#[trigger] folder[x])
    &&& forall|x: int, y: int|
        0 <= x < y < folder.len() && parse_name((#[trigger] folder[x]).name@) is Some ==> parse_name(
            (#[trigger] folder[y]).name@,
        ) != parse_name(folder[x].name@)
}

/// File `x` of the folder cannot be used, or a later file is the bucket
/// file of the same slot size.
pub open spec fn faulty(folder: Seq<StoredFile>, x: int) -> bool {
    ||| !usable_file(folder[x])
    ||| parse_name(folder[x].name@) is Some && exists|y: int|
        x < y < folder.len() && parse_name((#[trigger] folder[y]).name@) == parse_name(
            folder[x].name@,
        )
}

/// What is wrong with a bucket file that is faulty: it is stored under
/// another name than its slot size gives (`NotFound`), or it is shorter than
/// its header (`UnexpectedEof`), or its layout is broken or its slot size
/// taken (`InvalidData`).
pub open spec fn fault_of(file: StoredFile) -> IoFault {
    let size = parse_name(file.name@)->Some_0;
    if file.name@ != bucket_name(size as nat) {
        IoFault::NotFound
    } else if size != 0 && file.bytes@.len() < 8 {
        IoFault::UnexpectedEof
    } else {
        IoFault::InvalidData
    }
}

/// `b` is the bucket of one of the bucket files of `folder`.
pub open spec fn from_folder(folder: Seq<StoredFile>, b: CacheLevel1) -> bool {
    exists|x: int|
        0 <= x < folder.len() && parse_name((#[trigger] folder[x]).name@) is Some && b == level_of(
            folder[x],
        )
}

/// `files` holds the buckets of the bucket files of `folder`, and no other.
pub open spec fn mirrors(folder: Seq<StoredFile>, files: Seq<CacheLevel1>) -> bool {
    &&& forall|x: int|
        0 <= x < folder.len() && parse_name((#[trigger] folder[x]).name@) is Some ==> present(
            files,
            level_of(folder[x]).size_per_item,
        ) && bucket_of(files, level_of(folder[x]).size_per_item) == level_of(folder[x])
    &&& forall|j: int| 0 <= j < files.len() ==> from_folder(folder, #[trigger] files[j])
}

/// `folder` holds the file of each bucket of `files`, in their order, under
/// the name that the slot size gives.
pub open spec fn stores(files: Seq<CacheLevel1>, folder: Seq<StoredFile>) -> bool {
    &&& folder.len() == files.len()
    &&& forall|j: int|
        0 <= j < files.len() ==> (#[trigger] folder[j]).name@ == bucket_name(
            files[j].size_per_item as nat,
        ) && folder[j].bytes == files[j].image
}

/// A file that is no bucket file changes nothing of what a folder gives.
pub proof fn lemma_mirror_skip(done: Seq<StoredFile>, file: StoredFile, files: Seq<CacheLevel1>)
    requires
        parse_name(file.name@) is None,
    ensures
        usable(done) ==> usable(seq![file] + done),
        mirrors(done, files) ==> mirrors(seq![file] + done, files),
{
    let now = seq![file] + done;
    assert forall|x: int| 1 <= x < now.len() implies #[trigger] now[x] == done[x - 1] by {}
    if usable(done) {
        assert forall|x: int| 0 <= x < now.len() implies usable_file(#[trigger] now[x]) by {
            if x > 0 {
                assert(usable_file(done[x - 1]));
            }
        }
        assert forall|x: int, y: int|
            0 <= x < y < now.len() && parse_name((#[trigger] now[x]).name@) is Some implies parse_name(
            (#[trigger] now[y]).name@,
        ) != parse_name(now[x].name@) by {
            assert(parse_name(done[x - 1].name@) is Some);
            assert(done[y - 1] == now[y]);
        }
    }
    if mirrors(done, files) {
        assert forall|j: int| 0 <= j < files.len() implies from_folder(now, #[trigger] files[j]) by {
            assert(from_folder(done, files[j]));
            let x0 = choose|x: int|
                0 <= x < done.len() && parse_name((#[trigger] done[x]).name@) is Some && files[j]
                    == level_of(done[x]);
            assert(now[x0 + 1] == done[x0]);
        }
        assert forall|x: int|
            0 <= x < now.len() && parse_name((#[trigger] now[x]).name@) is Some implies present(
            files,
            level_of(now[x]).size_per_item,
        ) && bucket_of(files, level_of(now[x]).size_per_item) == level_of(now[x]) by {
            assert(now[x] == done[x - 1]);
        }
    }
}

/// A bucket file whose slot size is new adds its bucket to what a folder
/// gives.
pub proof fn lemma_mirror_put(
    done: Seq<StoredFile>,
    file: StoredFile,
    before: Seq<CacheLevel1>,
    p: int,
)
    requires
        parse_name(file.name@) is Some,
        usable_file(file),
        usable(done),
        mirrors(done, before),
        sorted(before),
        0 <= p <= before.len(),
        sorted(before.insert(p, level_of(file))),
    ensures
        usable(seq![file] + done),
        mirrors(seq![file] + done, before.insert(p, level_of(file))),
{
    let now = seq![file] + done;
    let fresh = level_of(file);
    let after = before.insert(p, fresh);
    assert forall|x: int| 1 <= x < now.len() implies #[trigger] now[x] == done[x - 1] by {}
    assert(after[p] == fresh);
    lemma_insert_frame(before, p, fresh);
    assert forall|x: int| 0 <= x < now.len() implies usable_file(#[trigger] now[x]) by {
        if x > 0 {
            assert(usable_file(done[x - 1]));
        }
    }
    assert forall|x: int, y: int|
        0 <= x < y < now.len() && parse_name((#[trigger] now[x]).name@) is Some implies parse_name(
        (#[trigger] now[y]).name@,
    ) != parse_name(now[x].name@) by {
        assert(done[y - 1] == now[y]);
        if x > 0 {
            assert(done[x - 1] == now[x]);
        } else if parse_name(now[y].name@) is Some {
            assert(present(before, level_of(done[y - 1]).size_per_item));
        }
    }
    assert forall|j: int| 0 <= j < after.len() implies from_folder(now, #[trigger] after[j]) by {
        if j == p {
            assert(after[j] == level_of(now[0]));
        } else {
            let j0 = if j < p { j } else { j - 1 };
            assert(from_folder(done, before[j0]));
            let x0 = choose|x: int|
                0 <= x < done.len() && parse_name((#[trigger] done[x]).name@) is Some && before[j0]
                    == level_of(done[x]);
            assert(now[x0 + 1] == done[x0]);
            assert(after[j] == level_of(now[x0 + 1]));
        }
    }
    assert forall|x: int|
        0 <= x < now.len() && parse_name((#[trigger] now[x]).name@) is Some implies present(
        after,
        level_of(now[x]).size_per_item,
    ) && bucket_of(after, level_of(now[x]).size_per_item) == level_of(now[x]) by {
        if x > 0 {
            assert(now[x] == done[x - 1]);
        }
    }
}

/// A folder with a file that cannot be used, or with a second bucket file of
/// one slot size, is not usable: that file is faulty. After it, a usable rest
/// of the folder has no faulty file.
pub proof fn lemma_mirror_refuse(all: Seq<StoredFile>, rest: int, files: Seq<CacheLevel1>)
    requires
        1 <= rest <= all.len(),
        usable(all.subrange(rest, all.len() as int)),
        mirrors(all.subrange(rest, all.len() as int), files),
        !usable_file(all[rest - 1]) || (parse_name(all[rest - 1].name@) matches Some(size)
            && present(files, size)),
    ensures
        !usable(all),
        faulty(all, rest - 1),
        forall|y: int| rest <= y < all.len() ==> !faulty(all, y),
{
    let done = all.subrange(rest, all.len() as int);
    if usable_file(all[rest - 1]) {
        let size = parse_name(all[rest - 1].name@)->Some_0;
        let j = position(files, size);
        assert(from_folder(done, files[j]));
        let x0 = choose|x: int|
            0 <= x < done.len() && parse_name((#[trigger] done[x]).name@) is Some && files[j]
                == level_of(done[x]);
        assert(all[rest + x0] == done[x0]);
        assert(parse_name(all[rest - 1].name@) == parse_name(all[rest + x0].name@));
    }
    assert forall|y: int| rest <= y < all.len() implies !faulty(all, y) by {
        assert(all[y] == done[y - rest]);
        assert(usable_file(done[y - rest]));
        if parse_name(all[y].name@) is Some {
            assert forall|z: int| y < z < all.len() implies parse_name((#[trigger] all[z]).name@)
                != parse_name(all[y].name@) by {
                assert(all[z] == done[z - rest]);
            }
        }
    }
}

impl CacheLevel2 {
    /// The buckets of a folder, sorted by slot size, with no file open. Fails
    /// where the folder is not usable, with what is wrong with the last of
    /// its faulty files.
    pub fn new(folder: Vec<StoredFile>) -> (r: Result<Self, FolderCacheError>)
        ensures
            r is Ok <==> usable(folder@),
            match r {
                Ok(level) => {
                    &&& level.shaped()
                    &&& level.open is None
                    &&& mirrors(folder@, level.files@)
                },
                Err(e) => exists|x: int|
                    {
                        &&& 0 <= x < folder@.len()
                        &&& #[trigger] faulty(folder@, x)
                        &&& e matches FolderCacheError::IO(f) && f == fault_of(folder@[x])
                        &&& forall|y: int| x < y < folder@.len() ==> !faulty(folder@, y)
                    },
            },
    {
        let ghost all = folder@;
        let mut left = folder;
        let mut level = CacheLevel2 { files: Vec::new(), open: None };
        loop
            invariant
                all == folder@,
                left@.len() <= all.len(),
                left@ == all.subrange(0, left@.len() as int),
                level.shaped(),
                level.open is None,
                usable(all.subrange(left@.len() as int, all.len() as int)),
                mirrors(all.subrange(left@.len() as int, all.len() as int), level.files@),
            ensures
                left@.len() == 0,
                level.shaped(),
                level.open is None,
                usable(all.subrange(left@.len() as int, all.len() as int)),
                mirrors(all.subrange(left@.len() as int, all.len() as int), level.files@),
            decreases left@.len(),
        {
            let ghost rest = left@.len() as int;
            let ghost done = all.subrange(rest, all.len() as int);
            let file = match left.pop() {
                Some(f) => f,
                None => {
                    break ;
                },
            };
            proof {
                assert(file == all[rest - 1]);
                assert(all.subrange(rest - 1, all.len() as int) =~= seq![file] + done);
                assert(left@ =~= all.subrange(0, rest - 1));
            }
            let ghost whole = file;
            let StoredFile { name, bytes } = file;
            let lvl1 = match CacheLevel1::from_path(name.as_str(), bytes) {
                Ok(found) => found,
                Err(e) => {
                    proof {
                        lemma_mirror_refuse(all, rest, level.files@);
                    }
                    return Err(e);
                },
            };
            match lvl1 {
                None => {
                    proof {
                        lemma_mirror_skip(done, whole, level.files@);
                    }
                },
                Some(cachefile) => {
                    proof {
                        assert(cachefile == level_of(whole));
                    }
                    if !cachefile.conforms() {
                        proof {
                            lemma_mirror_refuse(all, rest, level.files@);
                        }
                        return Err(FolderCacheError::IO(IoFault::InvalidData));
                    }
                    let at = match level.find(cachefile.size_per_item) {
                        Ok(_) => {
                            proof {
                                lemma_mirror_refuse(all, rest, level.files@);
                            }
                            return Err(FolderCacheError::IO(IoFault::InvalidData));
                        },
                        Err(at) => at,
                    };
                    let ghost before = level.files@;
                    level.files.insert(at, cachefile);
                    proof {
                        let after = level.files@;
                        let p = at as int;
                        assert(after == before.insert(p, cachefile));
                        lemma_sorted_insert(before, p, cachefile);
                        assert forall|j: int| 0 <= j < after.len() implies (
                        #[trigger] after[j]).shape() by {
                            if j < p {
                                assert(before[j].shape());
                            } else if j > p {
                                assert(before[j - 1].shape());
                            }
                        }
                        lemma_mirror_put(done, whole, before, p);
                    }
                },
            }
        }
        proof {
            assert(all.subrange(0, all.len() as int) =~= all);
        }
        Ok(level)
    }
}

impl CacheLevel2 {
    /// The files of the buckets.
    pub fn into_folder(self) -> (folder: Vec<StoredFile>)
        ensures
            stores(self.files@, folder@),
    {
        let ghost all = self.files@;
        let mut files = self.files;
        let mut folder: Vec<StoredFile> = Vec::new();
        loop
            invariant
                files@.len() <= all.len(),
                files@ == all.subrange(0, files@.len() as int),
                stores(all.subrange(files@.len() as int, all.len() as int), folder@),
            ensures
                files@.len() == 0,
                stores(all.subrange(files@.len() as int, all.len() as int), folder@),
            decreases files@.len(),
        {
            let ghost rest = files@.len() as int;
            let ghost done = all.subrange(rest, all.len() as int);
            let ghost before = folder@;
            let level = match files.pop() {
                Some(l) => l,
                None => {
                    break ;
                },
            };
            let name = level.file_name();
            folder.insert(0, StoredFile { name, bytes: level.image });
            proof {
                let now = all.subrange(rest - 1, all.len() as int);
                assert(files@ =~= all.subrange(0, rest - 1));
                assert forall|j: int| 0 <= j < now.len() implies (#[trigger] folder@[j]).name@
                    == bucket_name(now[j].size_per_item as nat) && folder@[j].bytes
                    == now[j].image by {
                    if j > 0 {
                        assert(folder@[j] == before[j - 1]);
                        assert(now[j] == done[j - 1]);
                    }
                }
            }
        }
        proof {
            assert(all.subrange(0, all.len() as int) =~= all);
        }
        folder
    }
}

/// Two sorted lists of buckets that hold the buckets of one folder have the
/// same buckets, and so the same records.
pub proof fn lemma_mirrors_same(folder: Seq<StoredFile>, a: CacheLevel2, b: CacheLevel2)
    requires
        mirrors(folder, a.files@),
        mirrors(folder, b.files@),
        sorted(a.files@),
        sorted(b.files@),
    ensures
        forall|size: u64| #[trigger] present(a.files@, size) == present(b.files@, size),
        forall|size: u64|
            present(a.files@, size) ==> #[trigger] a.bucket(size) == b.bucket(size),
        a.records() == b.records(),
        a.wf() == b.wf(),
{
    assert forall|size: u64| #[trigger] present(a.files@, size) implies present(b.files@, size)
        && a.bucket(size) == b.bucket(size) by {
        let j = position(a.files@, size);
        lemma_position(a.files@, j);
        assert(from_folder(folder, a.files@[j]));
        let x = choose|x: int|
            0 <= x < folder.len() && parse_name((#[trigger] folder[x]).name@) is Some && a.files@[j]
                == level_of(folder[x]);
        assert(present(b.files@, level_of(folder[x]).size_per_item));
    }
    assert forall|size: u64| #[trigger] present(b.files@, size) implies present(a.files@, size) by {
        let j = position(b.files@, size);
        lemma_position(b.files@, j);
        assert(from_folder(folder, b.files@[j]));
        let x = choose|x: int|
            0 <= x < folder.len() && parse_name((#[trigger] folder[x]).name@) is Some && b.files@[j]
                == level_of(folder[x]);
        assert(present(a.files@, level_of(folder[x]).size_per_item));
    }
    assert(a.records() =~= b.records());
    if a.wf() {
        assert forall|j: int| 0 <= j < b.files@.len() implies (#[trigger] b.files@[j]).wf() by {
            lemma_position(b.files@, j);
            let size = b.files@[j].size_per_item;
            assert(present(a.files@, size));
            lemma_position(a.files@, position(a.files@, size));
        }
    }
    if b.wf() {
        assert forall|j: int| 0 <= j < a.files@.len() implies (#[trigger] a.files@[j]).wf() by {
            lemma_position(a.files@, j);
            let size = a.files@[j].size_per_item;
            assert(present(b.files@, size));
            lemma_position(b.files@, position(b.files@, size));
        }
    }
}

/// The files of a well-formed list of buckets make a usable folder, whose
/// buckets they are.
pub proof fn lemma_stored_folder(level: CacheLevel2, folder: Seq<StoredFile>)
    requires
        level.wf(),
        stores(level.files@, folder),
    ensures
        usable(folder),
        mirrors(folder, level.files@),
{
    let files = level.files@;
    lemma_auto_spec_u64_to_from_le_bytes();
    assert forall|x: int| 0 <= x < folder.len() implies parse_name((#[trigger] folder[x]).name@)
        == Some(files[x].size_per_item) && level_of(folder[x]) == files[x] by {
        let b = files[x];
        assert(b.wf());
        lemma_name_reads_back(b.size_per_item);
        lemma_div_by_multiple(b.reserved as int, b.size_per_item as int);
        assert(b.image@.len() - 8 == b.reserved * b.size_per_item);
        let l = level_of(folder[x]);
        assert(l.size_per_item == b.size_per_item);
        assert(l.num_items == b.num_items);
        assert(l.reserved == b.reserved);
        assert(l.image == b.image);
    }
    assert forall|x: int| 0 <= x < folder.len() implies usable_file(#[trigger] folder[x]) by {
        assert(files[x].wf());
    }
    assert forall|x: int, y: int|
        0 <= x < y < folder.len() && parse_name((#[trigger] folder[x]).name@) is Some implies parse_name(
        (#[trigger] folder[y]).name@,
    ) != parse_name(folder[x].name@) by {
        assert(files[x].size_per_item < files[y].size_per_item);
    }
    assert forall|x: int|
        0 <= x < folder.len() && parse_name((#[trigger] folder[x]).name@) is Some implies present(
        files,
        level_of(folder[x]).size_per_item,
    ) && bucket_of(files, level_of(folder[x]).size_per_item) == level_of(folder[x]) by {
        lemma_position(files, x);
    }
    assert forall|j: int| 0 <= j < files.len() implies from_folder(folder, #[trigger] files[j]) by {
        assert(parse_name(folder[j].name@) is Some && files[j] == level_of(folder[j]));
    }
}

/// The files of `folder` that are no bucket files, in their order.
pub open spec fn others(folder: Seq<StoredFile>) -> Seq<StoredFile>
    decreases folder.len(),
{
    if folder.len() == 0 {
        folder
    } else if parse_name(folder[0].name@) is None {
        seq![folder[0]] + others(folder.drop_first())
    } else {
        others(folder.drop_first())
    }
}

/// A folder without bucket files is usable.
pub proof fn lemma_others_usable(folder: Seq<StoredFile>)
    ensures
        usable(others(folder)),
        forall|x: int|
            0 <= x < others(folder).len() ==> parse_name((#[trigger] others(folder)[x]).name@) is None,
    decreases folder.len(),
{
    if folder.len() > 0 {
        lemma_others_usable(folder.drop_first());
        let rest = others(folder.drop_first());
        if parse_name(folder[0].name@) is None {
            let now = seq![folder[0]] + rest;
            assert forall|x: int| 0 <= x < now.len() implies parse_name(
                (#[trigger] now[x]).name@,
            ) is None by {
                if x > 0 {
                    assert(now[x] == rest[x - 1]);
                }
            }
        }
    }
}

/// Deletes every bucket file from the folder. Other files stay.
pub fn clear_cache(folder: &mut Vec<StoredFile>) -> (r: Result<(), FolderCacheError>)
    ensures
        r is Ok,
        final(folder)@ == others(old(folder)@),
{
    let ghost all = folder@;
    let mut kept: Vec<StoredFile> = Vec::new();
    loop
        invariant
            folder@.len() <= all.len(),
            folder@ == all.subrange(0, folder@.len() as int),
            kept@ == others(all.subrange(folder@.len() as int, all.len() as int)),
        ensures
            folder@.len() == 0,
            kept@ == others(all.subrange(folder@.len() as int, all.len() as int)),
        decreases folder@.len(),
    {
        let ghost rest = folder@.len() as int;
        let ghost done = all.subrange(rest, all.len() as int);
        let file = match folder.pop() {
            Some(f) => f,
            None => {
                break ;
            },
        };
        proof {
            let now = all.subrange(rest - 1, all.len() as int);
            assert(now[0] == file);
            assert(now.drop_first() =~= done);
            assert(folder@ =~= all.subrange(0, rest - 1));
        }
        if read_name(file.name.as_str()).is_none() {
            kept.insert(0, file);
            proof {
                assert(kept@ =~= seq![file] + others(done));
            }
        }
    }
    proof {
        assert(all.subrange(0, all.len() as int) =~= all);
    }
    *folder = kept;
    Ok(())
}

} // verus!
