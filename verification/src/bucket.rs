//! One bucket: a file of fixed-size slots, held as its byte image.

use crate::codec::{decode_key, key_decoding};
use crate::error::{FolderCacheError, IoFault};
use crate::names::{bucket_name, file_name_of, parse_name, read_name};
use crate::layout::{
    bucket_for, frame, framed_len, holds_record, key_bytes, key_len, lemma_frame_len,
    lemma_frame_parses, lemma_slot_size_bounds, slot_size, value_bytes, value_len, FRAME_LIMIT,
    Level1EntryHeader, Level1Header,
};
use vstd::arithmetic::mul::*;
use vstd::arithmetic::power2::*;
use vstd::bytes::*;
use vstd::prelude::*;
use vstd::slice::slice_subrange;

verus! {

/// `b` with the bytes from `off` on replaced by `d`.
pub open spec fn splice(b: Seq<u8>, off: int, d: Seq<u8>) -> Seq<u8> {
    b.subrange(0, off) + d + b.subrange(off + d.len(), b.len() as int)
}

/// A range that ends before the replaced bytes begin, or begins after they
/// end, reads as before.
pub proof fn lemma_splice_elsewhere(b: Seq<u8>, off: int, d: Seq<u8>, lo: int, hi: int)
    requires
        0 <= off,
        off + d.len() <= b.len(),
        0 <= lo <= hi <= b.len(),
        hi <= off || off + d.len() <= lo,
    ensures
        splice(b, off, d).subrange(lo, hi) == b.subrange(lo, hi),
{
    assert(splice(b, off, d).subrange(lo, hi) =~= b.subrange(lo, hi));
}

/// The replaced range reads as the new bytes.
pub proof fn lemma_splice_there(b: Seq<u8>, off: int, d: Seq<u8>)
    requires
        0 <= off,
        off + d.len() <= b.len(),
    ensures
        splice(b, off, d).len() == b.len(),
        splice(b, off, d).subrange(off, off + d.len()) == d,
{
    assert(splice(b, off, d).subrange(off, off + d.len()) =~= d);
}

/// Overwrites `image` from `off` on with `data`.
pub fn write_at(image: &mut Vec<u8>, off: usize, data: &[u8])
    requires
        off + data@.len() <= old(image)@.len(),
    ensures
        final(image)@ == splice(old(image)@, off as int, data@),
{
    let n = data.len();
    let total = image.len();
    let mut i: usize = 0;
    while i < n
        invariant
            i <= n,
            total == image@.len(),
            n == data@.len(),
            off + n <= image@.len(),
            image@.len() == old(image)@.len(),
            forall|j: int|
                0 <= j < image@.len() ==> image@[j] == if off <= j < off + i {
                    data@[j - off]
                } else {
                    old(image)@[j]
                },
        decreases n - i,
    {
        image[off + i] = data[i];
        i += 1;
    }
    assert(image@ =~= splice(old(image)@, off as int, data@));
}

/// Copies `len` bytes of `image` from `off` on.
pub fn read_at(image: &Vec<u8>, off: usize, len: usize) -> (r: Vec<u8>)
    requires
        off + len <= image@.len(),
    ensures
        r@ == image@.subrange(off as int, off + len),
{
    let mut out: Vec<u8> = Vec::new();
    let total = image.len();
    let mut i: usize = 0;
    while i < len
        invariant
            i <= len,
            total == image@.len(),
            off + len <= image@.len(),
            out@ == image@.subrange(off as int, off + i),
        decreases len - i,
    {
        out.push(image[off + i]);
        i += 1;
        assert(out@ =~= image@.subrange(off as int, off + i));
    }
    out
}

/// Appends `src` to `dst`.
pub fn append(dst: &mut Vec<u8>, src: &[u8])
    ensures
        final(dst)@ == old(dst)@ + src@,
{
    let n = src.len();
    let mut i: usize = 0;
    while i < n
        invariant
            i <= n,
            n == src@.len(),
            dst@ == old(dst)@ + src@.subrange(0, i as int),
        decreases n - i,
    {
        dst.push(src[i]);
        i += 1;
        assert(dst@ =~= old(dst)@ + src@.subrange(0, i as int));
    }
    assert(src@.subrange(0, n as int) =~= src@);
}

/// The bytes of a record: entry header, value, key.
pub fn frame_record(kser: &Vec<u8>, vser: &Vec<u8>) -> (rec: Vec<u8>)
    ensures
        rec@ == frame(kser@, vser@),
{
    let header = Level1EntryHeader(kser.len() as u64, vser.len() as u64);
    let mut rec: Vec<u8> = Vec::new();
    append(&mut rec, header.to_bytes().as_slice());
    append(&mut rec, vser.as_slice());
    append(&mut rec, kser.as_slice());
    assert(rec@ =~= frame(kser@, vser@));
    rec
}

/// `x` is `2^e` for some `e`.
pub open spec fn power_of_two(x: nat) -> bool {
    exists|e: nat| x == pow2(e)
}

/// Whether `x` is a power of two.
pub fn is_power_of_two(x: u64) -> (r: bool)
    ensures
        r == power_of_two(x as nat),
{
    let mut p: u64 = 1;
    let ghost mut e: nat = 0;
    proof {
        lemma2_to64();
    }
    while p < x && p <= 0x4000_0000_0000_0000
        invariant
            p == pow2(e),
            e <= 63,
            e > 0 ==> pow2((e - 1) as nat) < x,
        decreases 64 - e,
    {
        proof {
            lemma_pow2_unfold(e + 1);
            lemma2_to64_rest();
            if e + 1 > 63 {
                lemma_pow2_strictly_increases(62, e);
            }
        }
        p = p * 2;
        proof {
            e = e + 1;
        }
    }
    proof {
        if p == x {
            assert(power_of_two(x as nat));
        } else {
            assert forall|f: nat| x != pow2(f) by {
                if f < e {
                    if e > 0 && f < e - 1 {
                        lemma_pow2_strictly_increases(f, (e - 1) as nat);
                    }
                } else if f > e {
                    lemma_pow2_strictly_increases(e, f);
                    if p < x {
                        lemma2_to64_rest();
                        if e < 63 {
                            lemma_pow2_strictly_increases(e, 63);
                        }
                        if f > 64 {
                            lemma_pow2_strictly_increases(64, f);
                        }
                        if f >= 64 {
                            assert(pow2(f) >= pow2(64));
                        }
                    }
                }
            }
        }
    }
    p == x
}

/// Slot `j` of a bucket image with slots of `size` bytes.
pub open spec fn slot_of(image: Seq<u8>, size: int, j: int) -> Seq<u8> {
    image.subrange(8 + j * size, 8 + (j + 1) * size)
}

/// Slot `j` lies inside an image of `r` slots.
pub proof fn lemma_slot_bounds(size: int, r: int, j: int)
    requires
        size >= 1,
        0 <= j < r,
    ensures
        0 <= j * size,
        j <= j * size,
        (j + 1) * size == j * size + size,
        8 + (j + 1) * size <= 8 + r * size,
{
    assert(0 <= j * size && j <= j * size) by (nonlinear_arith)
        requires
            size >= 1,
            0 <= j,
    ;
    assert((j + 1) * size == j * size + size) by (nonlinear_arith);
    assert((j + 1) * size <= r * size) by (nonlinear_arith)
        requires
            size >= 1,
            0 <= j < r,
    ;
}

/// Two different slots do not overlap.
pub proof fn lemma_slots_apart(size: int, i: int, j: int)
    requires
        size >= 1,
        0 <= i < j,
    ensures
        8 + (i + 1) * size <= 8 + j * size,
{
    assert((i + 1) * size <= j * size) by (nonlinear_arith)
        requires
            size >= 1,
            0 <= i < j,
    ;
}

/// Writing at most one slot's worth of bytes at the start of slot `i` leaves
/// every other slot and the file header as they were, and slot `i` begins
/// with the bytes written.
pub proof fn lemma_write_in_slot(image: Seq<u8>, size: int, r: int, i: int, d: Seq<u8>, j: int)
    requires
        size >= 1,
        image.len() == 8 + r * size,
        0 <= i < r,
        0 <= j < r,
        d.len() <= size,
    ensures
        splice(image, 8 + i * size, d).len() == image.len(),
        splice(image, 8 + i * size, d).subrange(0, 8) == image.subrange(0, 8),
        j != i ==> slot_of(splice(image, 8 + i * size, d), size, j) == slot_of(image, size, j),
        slot_of(splice(image, 8 + i * size, d), size, i).subrange(0, d.len() as int) == d,
        d.len() == size ==> slot_of(splice(image, 8 + i * size, d), size, i) == d,
{
    lemma_slot_bounds(size, r, i);
    lemma_slot_bounds(size, r, j);
    let image2 = splice(image, 8 + i * size, d);
    lemma_splice_there(image, 8 + i * size, d);
    lemma_splice_elsewhere(image, 8 + i * size, d, 0, 8);
    if j < i {
        lemma_slots_apart(size, j, i);
        lemma_splice_elsewhere(image, 8 + i * size, d, 8 + j * size, 8 + (j + 1) * size);
    } else if i < j {
        lemma_slots_apart(size, i, j);
        lemma_splice_elsewhere(image, 8 + i * size, d, 8 + j * size, 8 + (j + 1) * size);
    }
    assert(slot_of(image2, size, i).subrange(0, d.len() as int) =~= image2.subrange(
        8 + i * size,
        8 + i * size + d.len(),
    ));
    if d.len() == size {
        assert(slot_of(image2, size, i) =~= d);
    }
}

/// Rewriting the file header leaves every slot as it was.
pub proof fn lemma_write_header(image: Seq<u8>, size: int, r: int, d: Seq<u8>, j: int)
    requires
        size >= 1,
        image.len() == 8 + r * size,
        0 <= j < r,
        d.len() == 8,
    ensures
        splice(image, 0, d).len() == image.len(),
        splice(image, 0, d).subrange(0, 8) == d,
        slot_of(splice(image, 0, d), size, j) == slot_of(image, size, j),
{
    lemma_slot_bounds(size, r, j);
    lemma_splice_there(image, 0, d);
    lemma_splice_elsewhere(image, 0, d, 8 + j * size, 8 + (j + 1) * size);
}

/// A record of key `k` and value `v` belongs in the bucket with slots of
/// `size` bytes.
pub open spec fn fits(k: Seq<u8>, v: Seq<u8>, size: u64) -> bool {
    16 + k.len() + v.len() < FRAME_LIMIT && slot_size(16 + k.len() + v.len()) == size
}

/// Length of a bucket file with `slots` slots of `size` bytes, where that
/// length can be addressed.
pub fn file_len(slots: u64, size: u64) -> (r: Option<usize>)
    ensures
        r == (if 8 + slots * size <= usize::MAX {
            Some((8 + slots * size) as usize)
        } else {
            None::<usize>
        }),
{
    let body = match slots.checked_mul(size) {
        Some(b) => b,
        None => {
            return None;
        },
    };
    let total = match body.checked_add(8) {
        Some(t) => t,
        None => {
            return None;
        },
    };
    if total > usize::MAX as u64 {
        None
    } else {
        Some(total as usize)
    }
}

/// One bucket: the header fields of its file and the file's bytes.
pub struct CacheLevel1 {
    /// Number of live slots; the slots before it are live, the rest reserved.
    pub num_items: u64,
    /// Bytes per slot.
    pub size_per_item: u64,
    /// Number of slots that the file has room for.
    pub reserved: u64,
    /// The file: the eight-byte header, then the slots.
    pub image: Vec<u8>,
}

impl CacheLevel1 {
    /// The layout of the file is sound: slot size and slot count are powers
    /// of two, the file is exactly as long as its slots need, and its header
    /// holds the number of live slots.
    pub open spec fn shape(&self) -> bool {
        &&& self.size_per_item >= 32
        &&& power_of_two(self.size_per_item as nat)
        &&& self.reserved >= 4
        &&& power_of_two(self.reserved as nat)
        &&& self.num_items <= self.reserved
        &&& self.image@.len() == 8 + self.reserved * self.size_per_item
        &&& self.image@.subrange(0, 8) == spec_u64_to_le_bytes(self.num_items)
    }

    /// The bytes of slot `i`.
    pub open spec fn slot(&self, i: int) -> Seq<u8> {
        slot_of(self.image@, self.size_per_item as int, i)
    }

    /// Slot `i` holds a record that belongs in this bucket and whose key
    /// bytes are a key.
    pub open spec fn live(&self, i: int) -> bool {
        let s = self.slot(i);
        &&& holds_record(s)
        &&& framed_len(s) < FRAME_LIMIT
        &&& slot_size(framed_len(s)) == self.size_per_item
        &&& key_decoding(key_bytes(s)) is Some
    }

    /// Slot `i` holds a record that belongs in this bucket, but its key bytes
    /// are not a key.
    pub open spec fn undecodable(&self, i: int) -> bool {
        let s = self.slot(i);
        &&& holds_record(s)
        &&& framed_len(s) < FRAME_LIMIT
        &&& slot_size(framed_len(s)) == self.size_per_item
        &&& key_decoding(key_bytes(s)) is None
    }

    /// The layout is sound and every slot before `num_items` is live.
    pub open spec fn wf(&self) -> bool {
        &&& self.shape()
        &&& forall|i: int| 0 <= i < self.num_items ==> #[trigger] self.live(i)
    }

    /// The key of the record in slot `i`.
    pub open spec fn key_at(&self, i: int) -> u64 {
        key_decoding(key_bytes(self.slot(i)))->Some_0
    }

    /// The value bytes of the record in slot `i`.
    pub open spec fn value_at(&self, i: int) -> Seq<u8> {
        value_bytes(self.slot(i))
    }

    /// Number of live slots.
    pub fn len(&self) -> (r: usize)
        ensures
            self.num_items <= usize::MAX ==> r == self.num_items,
    {
        #[verifier::truncate]
        (self.num_items as usize)
    }

    /// Where slot `i` begins in the file.
    fn slot_offset(&self, i: u64) -> (off: usize)
        requires
            self.shape(),
            i < self.reserved,
        ensures
            off == 8 + i * self.size_per_item,
            off + self.size_per_item <= self.image@.len(),
    {
        let total = self.image.len();
        proof {
            lemma_slot_bounds(self.size_per_item as int, self.reserved as int, i as int);
        }
        8 + (i as usize) * (self.size_per_item as usize)
    }

    /// Writes the number of live slots into the file header.
    pub fn rewrite_header(&mut self)
        requires
            old(self).image@.len() >= 8,
        ensures
            final(self).image@ == splice(
                old(self).image@,
                0,
                spec_u64_to_le_bytes(old(self).num_items),
            ),
            final(self).num_items == old(self).num_items,
            final(self).size_per_item == old(self).size_per_item,
            final(self).reserved == old(self).reserved,
    {
        proof {
            lemma_auto_spec_u64_to_from_le_bytes();
        }
        let bytes = Level1Header(self.num_items).to_bytes();
        write_at(&mut self.image, 0, bytes.as_slice());
    }
    /// The lengths in the entry header of slot `i`, where the record that
    /// they announce fits in the slot.
    fn entry(&self, i: u64) -> (r: Option<(usize, usize, usize)>)
        requires
            self.shape(),
            i < self.reserved,
        ensures
            match r {
                Some((off, k_size, v_size)) => {
                    &&& holds_record(self.slot(i as int))
                    &&& off == 8 + i * self.size_per_item
                    &&& off + self.size_per_item <= self.image@.len()
                    &&& k_size == key_len(self.slot(i as int))
                    &&& v_size == value_len(self.slot(i as int))
                    &&& 16 + k_size + v_size <= self.size_per_item
                },
                None => !holds_record(self.slot(i as int)),
            },
    {
        let total = self.image.len();
        let off = self.slot_offset(i);
        let size = self.size_per_item as usize;
        let slot = slice_subrange(self.image.as_slice(), off, off + size);
        proof {
            lemma_slot_bounds(self.size_per_item as int, self.reserved as int, i as int);
            assert(slot@ == self.slot(i as int));
        }
        let Level1EntryHeader(k_size, v_size) = Level1EntryHeader::from_bytes(slot);
        if k_size > self.size_per_item - 16 || v_size > self.size_per_item - 16 - k_size {
            None
        } else {
            Some((off, k_size as usize, v_size as usize))
        }
    }

    /// The key of the record in slot `i`. Fails where the slot holds no
    /// record of this bucket, or where the key bytes are not a key.
    pub fn read_k(&self, i: u64) -> (r: Result<u64, FolderCacheError>)
        requires
            self.shape(),
            i < self.reserved,
        ensures
            match r {
                Ok(k) => self.live(i as int) && self.key_at(i as int) == k,
                Err(FolderCacheError::IO(f)) => {
                    &&& f == IoFault::InvalidData
                    &&& !self.live(i as int)
                    &&& (holds_record(self.slot(i as int)) ==> !(framed_len(self.slot(i as int))
                        < FRAME_LIMIT && slot_size(framed_len(self.slot(i as int)))
                        == self.size_per_item))
                },
                Err(FolderCacheError::Decode(_)) => self.undecodable(i as int),
                Err(_) => false,
            },
    {
        match self.entry(i) {
            None => Err(FolderCacheError::IO(IoFault::InvalidData)),
            Some((off, k_size, v_size)) => {
                let total = self.image.len();
                let full: u64 = (16 + k_size + v_size) as u64;
                if bucket_for(full) != Some(self.size_per_item) {
                    return Err(FolderCacheError::IO(IoFault::InvalidData));
                }
                let start = off + 16 + v_size;
                let key = slice_subrange(self.image.as_slice(), start, start + k_size);
                proof {
                    lemma_slot_bounds(self.size_per_item as int, self.reserved as int, i as int);
                    assert(key@ =~= key_bytes(self.slot(i as int)));
                }
                match decode_key(key) {
                    Ok(k) => Ok(k),
                    Err(e) => Err(FolderCacheError::Decode(e)),
                }
            },
        }
    }

    /// The value bytes of the record in slot `i`. Fails where the slot is
    /// too short for the record that its header announces.
    pub fn read_v(&self, i: u64) -> (r: Result<Vec<u8>, FolderCacheError>)
        requires
            self.shape(),
            i < self.reserved,
        ensures
            match r {
                Ok(v) => holds_record(self.slot(i as int)) && v@ == self.value_at(i as int),
                Err(FolderCacheError::IO(f)) => f == IoFault::InvalidData && !holds_record(
                    self.slot(i as int),
                ),
                Err(_) => false,
            },
    {
        match self.entry(i) {
            None => Err(FolderCacheError::IO(IoFault::InvalidData)),
            Some((off, _k_size, v_size)) => {
                let total = self.image.len();
                let v = read_at(&self.image, off + 16, v_size);
                proof {
                    lemma_slot_bounds(self.size_per_item as int, self.reserved as int, i as int);
                    assert(v@ =~= self.value_at(i as int));
                }
                Ok(v)
            },
        }
    }

    /// Key and value bytes of the record in slot `i`.
    pub fn read(&self, i: u64) -> (r: Result<(u64, Vec<u8>), FolderCacheError>)
        requires
            self.shape(),
            i < self.reserved,
        ensures
            match r {
                Ok((k, v)) => {
                    &&& self.live(i as int)
                    &&& self.key_at(i as int) == k
                    &&& v@ == self.value_at(i as int)
                },
                Err(FolderCacheError::IO(f)) => f == IoFault::InvalidData && !self.live(i as int)
                    && !self.undecodable(i as int),
                Err(FolderCacheError::Decode(_)) => self.undecodable(i as int),
                Err(_) => false,
            },
    {
        let k = self.read_k(i)?;
        let v = self.read_v(i)?;
        Ok((k, v))
    }
    /// Removes the record in slot `i` by moving the last live record into its
    /// place. Returns the key of the record that moved, if one did.
    pub fn swap_remove(&mut self, i: u64) -> (r: Result<Option<u64>, FolderCacheError>)
        requires
            old(self).wf(),
            i < old(self).num_items,
        ensures
            final(self).wf(),
            final(self).size_per_item == old(self).size_per_item,
            final(self).reserved == old(self).reserved,
            final(self).num_items == old(self).num_items - 1,
            r matches Ok(moved) && moved == (if i == old(self).num_items - 1 {
                None
            } else {
                Some(old(self).key_at(old(self).num_items - 1))
            }),
            forall|j: int|
                0 <= j < final(self).num_items ==> #[trigger] final(self).slot(j) == (if j == i {
                    old(self).slot(old(self).num_items - 1)
                } else {
                    old(self).slot(j)
                }),
    {
        let last = self.num_items - 1;
        let ghost before = *self;
        let ghost size = self.size_per_item as int;
        let ghost slots = self.reserved as int;
        proof {
            lemma_auto_spec_u64_to_from_le_bytes();
            assert(before.live(last as int));
        }
        if i == last {
            self.num_items = last;
            self.rewrite_header();
            proof {
                assert forall|j: int| 0 <= j < slots implies #[trigger] self.slot(j)
                    == before.slot(j) by {
                    lemma_write_header(
                        before.image@,
                        size,
                        slots,
                        spec_u64_to_le_bytes(last),
                        j,
                    );
                }
                lemma_write_header(before.image@, size, slots, spec_u64_to_le_bytes(last), 0);
                assert forall|j: int| 0 <= j < self.num_items implies #[trigger] self.live(j) by {
                    assert(before.live(j));
                }
            }
            Ok(None)
        } else {
            let total = self.image.len();
            let from = self.slot_offset(last);
            let to = self.slot_offset(i);
            let moved = match self.read_k(last) {
                Ok(k) => k,
                Err(e) => {
                    return Err(e);
                },
            };
            let read = read_at(&self.image, from, self.size_per_item as usize);
            proof {
                lemma_slot_bounds(size, slots, last as int);
                assert(read@ =~= before.slot(last as int));
            }
            write_at(&mut self.image, to, read.as_slice());
            let ghost copied = self.image@;
            self.num_items = last;
            self.rewrite_header();
            proof {
                assert forall|j: int| 0 <= j < slots implies #[trigger] self.slot(j) == (if j
                    == i {
                    before.slot(last as int)
                } else {
                    before.slot(j)
                }) by {
                    lemma_write_in_slot(before.image@, size, slots, i as int, read@, j);
                    lemma_write_header(copied, size, slots, spec_u64_to_le_bytes(last), j);
                }
                lemma_write_in_slot(before.image@, size, slots, i as int, read@, 0);
                lemma_write_header(copied, size, slots, spec_u64_to_le_bytes(last), 0);
                assert forall|j: int| 0 <= j < self.num_items implies #[trigger] self.live(j) by {
                    assert(before.live(j));
                    assert(self.slot(j) == (if j == i {
                        before.slot(last as int)
                    } else {
                        before.slot(j)
                    }));
                }
            }
            Ok(Some(moved))
        }
    }

    /// Forgets every record: no slot is live any more.
    pub fn clear(&mut self)
        requires
            old(self).wf(),
        ensures
            final(self).wf(),
            final(self).num_items == 0,
            final(self).size_per_item == old(self).size_per_item,
            final(self).reserved == old(self).reserved,
    {
        let ghost before = *self;
        self.num_items = 0;
        self.rewrite_header();
        proof {
            lemma_auto_spec_u64_to_from_le_bytes();
            lemma_write_header(
                before.image@,
                self.size_per_item as int,
                self.reserved as int,
                spec_u64_to_le_bytes(0),
                0,
            );
        }
    }
    /// One more record can be added: a slot is free, or the file can double.
    pub open spec fn room(&self) -> bool {
        self.num_items < self.reserved || 8 + 2 * self.reserved * self.size_per_item <= usize::MAX
    }

    /// Whether one more record can be added.
    pub fn has_room(&self) -> (r: bool)
        requires
            self.shape(),
        ensures
            r == self.room(),
    {
        if self.num_items < self.reserved {
            return true;
        }
        proof {
            assert(2 * self.reserved * self.size_per_item == (2 * self.reserved)
                * self.size_per_item) by (nonlinear_arith);
            if self.reserved > u64::MAX / 2 {
                assert(2 * self.reserved * self.size_per_item > usize::MAX) by (nonlinear_arith)
                    requires
                        self.size_per_item >= 1,
                        2 * self.reserved > usize::MAX,
                ;
            }
        }
        self.reserved <= u64::MAX / 2 && file_len(self.reserved * 2, self.size_per_item).is_some()
    }

    /// Writes the record of `kser` and `vser` into the first slot that is not
    /// live, doubling the file's room first where every slot is live, and
    /// returns the slot's index. Fails, changing nothing, where the doubled
    /// file could not be addressed.
    pub fn add(&mut self, kser: &Vec<u8>, vser: &Vec<u8>) -> (r: Result<u64, FolderCacheError>)
        requires
            old(self).wf(),
            fits(kser@, vser@, old(self).size_per_item),
            key_decoding(kser@) is Some,
        ensures
            final(self).size_per_item == old(self).size_per_item,
            match r {
                Ok(index) => {
                    &&& final(self).wf()
                    &&& index == old(self).num_items
                    &&& final(self).num_items == old(self).num_items + 1
                    &&& final(self).reserved == (if old(self).num_items == old(self).reserved {
                        2 * old(self).reserved
                    } else {
                        old(self).reserved as int
                    })
                    &&& key_bytes(final(self).slot(index as int)) == kser@
                    &&& value_bytes(final(self).slot(index as int)) == vser@
                    &&& forall|j: int|
                        0 <= j < old(self).num_items ==> #[trigger] final(self).slot(j) == old(
                            self,
                        ).slot(j)
                },
                Err(e) => e matches FolderCacheError::IO(IoFault::TooLarge) && *final(self) == *old(
                    self,
                ),
            },
            r is Err <==> !old(self).room(),
    {
        let ghost before = *self;
        let ghost size = self.size_per_item as int;
        let index = self.num_items;
        proof {
            lemma_auto_spec_u64_to_from_le_bytes();
            lemma_slot_size_bounds(16 + kser@.len() + vser@.len());
            lemma_frame_len(kser@, vser@);
        }
        if self.num_items >= self.reserved {
            let total = self.image.len();
            proof {
                assert(2 * before.reserved * size == (2 * before.reserved) * size)
                    by (nonlinear_arith);
                assert(before.reserved <= before.reserved * size) by (nonlinear_arith)
                    requires
                        size >= 1,
                        before.reserved >= 0,
                ;
            }
            if self.reserved > u64::MAX / 2 {
                proof {
                    assert(2 * before.reserved * size > usize::MAX) by (nonlinear_arith)
                        requires
                            size >= 1,
                            2 * before.reserved > usize::MAX,
                    ;
                }
                return Err(FolderCacheError::IO(IoFault::TooLarge));
            }
            let grown = match file_len(self.reserved * 2, self.size_per_item) {
                Some(n) => n,
                None => {
                    return Err(FolderCacheError::IO(IoFault::TooLarge));
                },
            };
            proof {
                assert(before.reserved * size < 2 * before.reserved * size) by (nonlinear_arith)
                    requires
                        size >= 1,
                        before.reserved >= 1,
                ;
            }
            self.image.resize(grown, 0u8);
            self.reserved = self.reserved * 2;
            proof {
                let e = choose|e: nat| before.reserved as nat == pow2(e);
                lemma_pow2_unfold(e + 1);
                assert(power_of_two(self.reserved as nat));
                assert(self.image@.subrange(0, 8) =~= before.image@.subrange(0, 8));
                assert forall|j: int| 0 <= j < before.reserved implies #[trigger] self.slot(j)
                    == before.slot(j) by {
                    lemma_slot_bounds(size, before.reserved as int, j);
                    assert(forall|x: int|
                        0 <= x < before.image@.len() ==> self.image@[x] == self.image@.subrange(
                            0,
                            before.image@.len() as int,
                        )[x]);
                    assert(self.slot(j) =~= before.slot(j));
                }
            }
        }
        let ghost grown = *self;
        let ghost slots = self.reserved as int;
        let rec = frame_record(kser, vser);
        let off = self.slot_offset(index);
        write_at(&mut self.image, off, rec.as_slice());
        let ghost written = self.image@;
        self.num_items = index + 1;
        self.rewrite_header();
        proof {
            assert forall|j: int| 0 <= j < slots && j != index implies #[trigger] self.slot(j)
                == grown.slot(j) by {
                lemma_write_in_slot(grown.image@, size, slots, index as int, rec@, j);
                lemma_write_header(written, size, slots, spec_u64_to_le_bytes(self.num_items), j);
            }
            lemma_write_in_slot(grown.image@, size, slots, index as int, rec@, index as int);
            lemma_write_header(
                written,
                size,
                slots,
                spec_u64_to_le_bytes(self.num_items),
                index as int,
            );
            lemma_slot_bounds(size, slots, index as int);
            lemma_frame_parses(self.slot(index as int), kser@, vser@);
            assert forall|j: int| 0 <= j < self.num_items implies #[trigger] self.live(j) by {
                if j < index {
                    assert(before.live(j));
                    assert(self.slot(j) == grown.slot(j));
                }
            }
        }
        Ok(index)
    }

    /// Writes the record of `kser` and `vser` over the one in slot `i`.
    pub fn overwrite(&mut self, i: u64, kser: &Vec<u8>, vser: &Vec<u8>) -> (r: Result<
        (),
        FolderCacheError,
    >)
        requires
            old(self).wf(),
            i < old(self).num_items,
            fits(kser@, vser@, old(self).size_per_item),
            key_decoding(kser@) is Some,
        ensures
            r is Ok,
            final(self).wf(),
            final(self).size_per_item == old(self).size_per_item,
            final(self).reserved == old(self).reserved,
            final(self).num_items == old(self).num_items,
            key_bytes(final(self).slot(i as int)) == kser@,
            value_bytes(final(self).slot(i as int)) == vser@,
            forall|j: int|
                0 <= j < old(self).num_items && j != i ==> #[trigger] final(self).slot(j) == old(
                    self,
                ).slot(j),
    {
        let ghost before = *self;
        let ghost size = self.size_per_item as int;
        let ghost slots = self.reserved as int;
        proof {
            lemma_slot_size_bounds(16 + kser@.len() + vser@.len());
            lemma_frame_len(kser@, vser@);
        }
        let rec = frame_record(kser, vser);
        let off = self.slot_offset(i);
        write_at(&mut self.image, off, rec.as_slice());
        proof {
            assert forall|j: int| 0 <= j < slots && j != i implies #[trigger] self.slot(j)
                == before.slot(j) by {
                lemma_write_in_slot(before.image@, size, slots, i as int, rec@, j);
            }
            lemma_write_in_slot(before.image@, size, slots, i as int, rec@, i as int);
            lemma_slot_bounds(size, slots, i as int);
            lemma_frame_parses(self.slot(i as int), kser@, vser@);
            assert forall|j: int| 0 <= j < self.num_items implies #[trigger] self.live(j) by {
                if j != i {
                    assert(before.live(j));
                    assert(self.slot(j) == before.slot(j));
                }
            }
        }
        Ok(())
    }
    /// The name of the bucket's file.
    pub fn file_name(&self) -> (name: String)
        ensures
            name@ == bucket_name(self.size_per_item as nat),
    {
        file_name_of(self.size_per_item)
    }

    /// Whether the layout of the file is sound.
    pub fn conforms(&self) -> (r: bool)
        ensures
            r == self.shape(),
    {
        if self.size_per_item < 32 || self.reserved < 4 || self.num_items > self.reserved {
            return false;
        }
        if !is_power_of_two(self.size_per_item) || !is_power_of_two(self.reserved) {
            return false;
        }
        if file_len(self.reserved, self.size_per_item) != Some(self.image.len()) {
            return false;
        }
        let stored = Level1Header::from_bytes(self.image.as_slice());
        proof {
            lemma_auto_spec_u64_to_from_le_bytes();
            assert(self.image@.subrange(0, 8).len() == 8);
        }
        stored.0 == self.num_items
    }

    /// Makes the file anew for the slot size and the room that the bucket
    /// has: no live slot, every byte of every slot zero. Returns the file's
    /// name. Fails, changing nothing, where the file could not be addressed.
    pub fn create_file(&mut self) -> (r: Result<String, FolderCacheError>)
        requires
            old(self).size_per_item >= 32,
            power_of_two(old(self).size_per_item as nat),
            old(self).reserved >= 4,
            power_of_two(old(self).reserved as nat),
        ensures
            final(self).size_per_item == old(self).size_per_item,
            final(self).reserved == old(self).reserved,
            match r {
                Ok(name) => {
                    &&& final(self).wf()
                    &&& final(self).num_items == 0
                    &&& name@ == bucket_name(old(self).size_per_item as nat)
                },
                Err(e) => e matches FolderCacheError::IO(IoFault::TooLarge) && *final(self) == *old(
                    self,
                ),
            },
            r is Err <==> 8 + old(self).reserved * old(self).size_per_item > usize::MAX,
    {
        let total = match file_len(self.reserved, self.size_per_item) {
            Some(n) => n,
            None => {
                return Err(FolderCacheError::IO(IoFault::TooLarge));
            },
        };
        self.num_items = 0;
        let mut image: Vec<u8> = Vec::new();
        image.resize(total, 0u8);
        self.image = image;
        self.rewrite_header();
        proof {
            lemma_auto_spec_u64_to_from_le_bytes();
            assert(self.image@.subrange(0, 8) =~= spec_u64_to_le_bytes(0));
        }
        Ok(self.file_name())
    }

    /// The bucket that a stored file holds: `None` where the name is not
    /// that of a bucket file; otherwise the slot size from the name, the
    /// number of live slots from the file header, and as many reserved slots
    /// as fit in the file. Fails where the name writes the slot size in
    /// another way than `file_name` does, where the slot size is zero, and
    /// where the file is shorter than its header.
    pub fn from_path(name: &str, image: Vec<u8>) -> (r: Result<Option<CacheLevel1>, FolderCacheError>)
        ensures
            match r {
                Ok(None) => parse_name(name@) is None,
                Ok(Some(level)) => {
                    &&& parse_name(name@) == Some(level.size_per_item)
                    &&& name@ == bucket_name(level.size_per_item as nat)
                    &&& level.size_per_item > 0
                    &&& level.image == image
                    &&& image@.len() >= 8
                    &&& level.num_items == spec_u64_from_le_bytes(image@.subrange(0, 8))
                    &&& level.reserved == (image@.len() - 8) / (level.size_per_item as int)
                },
                Err(FolderCacheError::IO(f)) => {
                    &&& parse_name(name@) matches Some(size)
                    &&& f == (if name@ != bucket_name(size as nat) {
                        IoFault::NotFound
                    } else if size == 0 {
                        IoFault::InvalidData
                    } else {
                        IoFault::UnexpectedEof
                    })
                    &&& (name@ == bucket_name(size as nat) && size > 0 ==> image@.len() < 8)
                },
                Err(_) => false,
            },
    {
        match read_name(name) {
            None => Ok(None),
            Some(size_per_item) => {
                let canonical = file_name_of(size_per_item);
                if canonical != name.to_owned() {
                    return Err(FolderCacheError::IO(IoFault::NotFound));
                }
                if size_per_item == 0 {
                    return Err(FolderCacheError::IO(IoFault::InvalidData));
                }
                let length = image.len();
                if length < 8 {
                    return Err(FolderCacheError::IO(IoFault::UnexpectedEof));
                }
                let Level1Header(num_items) = Level1Header::from_bytes(image.as_slice());
                let reserved = ((length - 8) as u64) / size_per_item;
                Ok(Some(CacheLevel1 { size_per_item, num_items, reserved, image }))
            },
        }
    }
}

} // verus!
