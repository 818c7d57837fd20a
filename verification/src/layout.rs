//! The byte-level layout of bucket files: slot sizing, the file header and
//! the entry header.

use vstd::arithmetic::power2::*;
use vstd::bytes::*;
use vstd::prelude::*;
use vstd::slice::slice_subrange;

verus! {

/// Number of bits needed to write `x` in binary: `0` for `0`, otherwise one
/// more than the position of the most significant set bit.
pub open spec fn bit_length(x: nat) -> nat
    decreases x,
{
    if x == 0 {
        0
    } else {
        1 + bit_length(x / 2)
    }
}

/// `bit_length(x)` is the least exponent `e` with `x < 2^e`.
pub proof fn lemma_bit_length_bounds(x: nat)
    ensures
        x < pow2(bit_length(x)),
        x > 0 ==> pow2((bit_length(x) - 1) as nat) <= x,
    decreases x,
{
    lemma2_to64();
    if x > 0 {
        lemma_bit_length_bounds(x / 2);
        lemma_pow2_unfold(bit_length(x));
        if x / 2 > 0 {
            lemma_pow2_unfold(bit_length(x / 2));
        }
    }
}

/// Any exponent `e` with `2^(e-1) <= x < 2^e` is the bit length of `x`.
pub proof fn lemma_bit_length_unique(x: nat, e: nat)
    requires
        x < pow2(e),
        e > 0 ==> pow2((e - 1) as nat) <= x,
    ensures
        bit_length(x) == e,
    decreases x,
{
    lemma2_to64();
    if x == 0 {
        if e > 0 {
            lemma_pow2_pos((e - 1) as nat);
        }
    } else {
        assert(e > 0);
        lemma_pow2_unfold(e);
        if e - 1 > 0 {
            lemma_pow2_unfold((e - 1) as nat);
        }
        lemma_bit_length_unique(x / 2, (e - 1) as nat);
    }
}

/// Position just above the most significant set bit of `x`.
pub fn foremost_bit(x: u64) -> (r: u32)
    ensures
        r == bit_length(x as nat),
        r <= 64,
{
    let mut i: u32 = 0;
    while i < 64
        invariant
            i <= 64,
            i > 0 ==> pow2((i - 1) as nat) <= x,
        decreases 64 - i,
    {
        proof {
            shl_is_pow2(i);
        }
        let low: u64 = (1u64 << i) - 1;
        if (!low & x) == 0 {
            proof {
                mask_clear_means_below(x, i);
                lemma_bit_length_unique(x as nat, i as nat);
            }
            return i;
        }
        proof {
            mask_set_means_at_least(x, i);
        }
        i += 1;
    }
    proof {
        lemma2_to64();
        lemma2_to64_rest();
        lemma_bit_length_unique(x as nat, 64);
    }
    64
}

proof fn lemma_pow2_below_u64(e: nat)
    requires
        e < 64,
    ensures
        1 <= pow2(e) <= 0x8000_0000_0000_0000,
{
    lemma2_to64();
    lemma2_to64_rest();
    lemma_pow2_pos(e);
    if e < 63 {
        lemma_pow2_strictly_increases(e, 63);
    }
}

proof fn shl_is_pow2(i: u32)
    requires
        i < 64,
    ensures
        (1u64 << i) == pow2(i as nat),
        (1u64 << i) >= 1,
{
    lemma_pow2_below_u64(i as nat);
    vstd::bits::lemma_u64_shl_is_mul(1, i as u64);
}

proof fn mask_clear_means_below(x: u64, i: u32)
    requires
        i < 64,
        (!(((1u64 << i) - 1) as u64) & x) == 0,
    ensures
        x < (1u64 << i),
{
    assert(x < (1u64 << i)) by (bit_vector)
        requires
            i < 64,
            (!(((1u64 << i) - 1) as u64) & x) == 0,
    ;
}

proof fn mask_set_means_at_least(x: u64, i: u32)
    requires
        i < 64,
        (!(((1u64 << i) - 1) as u64) & x) != 0,
    ensures
        x >= (1u64 << i),
{
    assert(x >= (1u64 << i)) by (bit_vector)
        requires
            i < 64,
            (!(((1u64 << i) - 1) as u64) & x) != 0,
    ;
}

/// Bytes of the header that opens every bucket file: the number of live slots.
pub const HEADER_BYTES: usize = 8;

/// Bytes of the header that opens every record: key length, then value length.
pub const ENTRY_HEADER_BYTES: usize = 16;

/// First framed length that no bucket can hold: its slot size would not fit
/// in 64 bits.
pub const FRAME_LIMIT: u64 = 0x4000_0000_0000_0000;

/// Slot size of the bucket that holds records of framed length `len`: two
/// doublings above the most significant bit of `len`.
pub open spec fn slot_size(len: nat) -> nat {
    pow2(bit_length(len) + 1)
}

/// The slot size is a power of two that is more than twice the framed length
/// and, for a non-empty frame, at most four times it.
pub proof fn lemma_slot_size_bounds(len: nat)
    ensures
        2 * len < slot_size(len),
        len > 0 ==> slot_size(len) <= 4 * len,
        slot_size(len) >= 2,
{
    lemma_bit_length_bounds(len);
    lemma_pow2_unfold(bit_length(len) + 1);
    lemma_pow2_pos(bit_length(len));
    if len > 0 {
        lemma_pow2_unfold(bit_length(len));
    }
}

/// A frame below the limit has a slot size that fits in 64 bits; one at or
/// above it has none.
pub proof fn lemma_slot_size_fits(len: nat)
    ensures
        len < FRAME_LIMIT <==> bit_length(len) < 63,
        len < FRAME_LIMIT ==> slot_size(len) <= 0x8000_0000_0000_0000,
{
    lemma2_to64();
    lemma2_to64_rest();
    lemma_bit_length_bounds(len);
    let b = bit_length(len);
    if b < 63 {
        if b < 62 {
            lemma_pow2_strictly_increases(b, 62);
        }
        if b + 1 < 63 {
            lemma_pow2_strictly_increases(b + 1, 63);
        }
    } else {
        if b - 1 > 62 {
            lemma_pow2_strictly_increases(62, (b - 1) as nat);
        }
    }
}

/// Slot size for a record of framed length `len`, or `None` where that size
/// does not fit in 64 bits.
pub fn bucket_for(len: u64) -> (r: Option<u64>)
    ensures
        len < FRAME_LIMIT ==> r == Some(slot_size(len as nat) as u64) && slot_size(len as nat)
            <= u64::MAX,
        len >= FRAME_LIMIT ==> r is None,
{
    let b = foremost_bit(len);
    proof {
        lemma_slot_size_fits(len as nat);
    }
    if b >= 63 {
        None
    } else {
        proof {
            shl_is_pow2((b + 1) as u32);
        }
        Some(1u64 << (b + 1))
    }
}

/// The header of a bucket file: how many of its slots are live.
pub struct Level1Header(pub u64);

/// The header of a record: the length of its key and the length of its value.
pub struct Level1EntryHeader(pub u64, pub u64);

impl Level1Header {
    /// The count as eight little-endian bytes.
    pub fn to_bytes(&self) -> (r: [u8; 8])
        ensures
            r@ == spec_u64_to_le_bytes(self.0),
    {
        let v = u64_to_le_bytes(self.0);
        let r = [v[0], v[1], v[2], v[3], v[4], v[5], v[6], v[7]];
        assert(r@ =~= v@);
        r
    }

    /// Reads the count from the first eight bytes.
    pub fn from_bytes(bytes: &[u8]) -> (r: Self)
        requires
            bytes@.len() >= 8,
        ensures
            r.0 == spec_u64_from_le_bytes(bytes@.subrange(0, 8)),
    {
        Level1Header(u64_from_le_bytes(slice_subrange(bytes, 0, 8)))
    }
}

impl Level1EntryHeader {
    /// Key length, then value length, each as eight little-endian bytes.
    pub fn to_bytes(&self) -> (r: [u8; 16])
        ensures
            r@ == spec_u64_to_le_bytes(self.0) + spec_u64_to_le_bytes(self.1),
    {
        let a = u64_to_le_bytes(self.0);
        let b = u64_to_le_bytes(self.1);
        let r = [
            a[0],
            a[1],
            a[2],
            a[3],
            a[4],
            a[5],
            a[6],
            a[7],
            b[0],
            b[1],
            b[2],
            b[3],
            b[4],
            b[5],
            b[6],
            b[7],
        ];
        assert(r@ =~= a@ + b@);
        r
    }

    /// Reads the two lengths from the first sixteen bytes.
    pub fn from_bytes(bytes: &[u8]) -> (r: Self)
        requires
            bytes@.len() >= 16,
        ensures
            r.0 == spec_u64_from_le_bytes(bytes@.subrange(0, 8)),
            r.1 == spec_u64_from_le_bytes(bytes@.subrange(8, 16)),
    {
        Level1EntryHeader(
            u64_from_le_bytes(slice_subrange(bytes, 0, 8)),
            u64_from_le_bytes(slice_subrange(bytes, 8, 16)),
        )
    }
}

/// A record as it lies in a slot: both lengths, the value, then the key.
pub open spec fn frame(k: Seq<u8>, v: Seq<u8>) -> Seq<u8> {
    spec_u64_to_le_bytes(k.len() as u64) + spec_u64_to_le_bytes(v.len() as u64) + v + k
}

/// A frame is sixteen bytes longer than its key and value together.
pub proof fn lemma_frame_len(k: Seq<u8>, v: Seq<u8>)
    ensures
        frame(k, v).len() == 16 + k.len() + v.len(),
{
    lemma_auto_spec_u64_to_from_le_bytes();
}

/// Key length that the entry header of slot `s` announces.
pub open spec fn key_len(s: Seq<u8>) -> nat {
    spec_u64_from_le_bytes(s.subrange(0, 8)) as nat
}

/// Value length that the entry header of slot `s` announces.
pub open spec fn value_len(s: Seq<u8>) -> nat {
    spec_u64_from_le_bytes(s.subrange(8, 16)) as nat
}

/// The slot is long enough for its entry header and for the key and value
/// that the header announces.
pub open spec fn holds_record(s: Seq<u8>) -> bool {
    s.len() >= 16 && 16 + key_len(s) + value_len(s) <= s.len()
}

/// The value bytes of the record in slot `s`.
pub open spec fn value_bytes(s: Seq<u8>) -> Seq<u8> {
    s.subrange(16, 16 + value_len(s) as int)
}

/// The key bytes of the record in slot `s`.
pub open spec fn key_bytes(s: Seq<u8>) -> Seq<u8> {
    s.subrange(16 + value_len(s) as int, 16 + value_len(s) as int + key_len(s) as int)
}

/// Framed length of the record in slot `s`.
pub open spec fn framed_len(s: Seq<u8>) -> nat {
    16 + key_len(s) + value_len(s)
}

/// A slot that begins with `frame(k, v)` holds a record whose key is `k` and
/// whose value is `v`, whatever follows the frame.
pub proof fn lemma_frame_parses(s: Seq<u8>, k: Seq<u8>, v: Seq<u8>)
    requires
        k.len() <= u64::MAX,
        v.len() <= u64::MAX,
        frame(k, v).len() <= s.len(),
        s.subrange(0, frame(k, v).len() as int) == frame(k, v),
    ensures
        frame(k, v).len() == 16 + k.len() + v.len(),
        holds_record(s),
        key_len(s) == k.len(),
        value_len(s) == v.len(),
        key_bytes(s) == k,
        value_bytes(s) == v,
{
    lemma_auto_spec_u64_to_from_le_bytes();
    let f = frame(k, v);
    let n = f.len() as int;
    assert(s.subrange(0, 8) =~= f.subrange(0, 8)) by {
        assert(forall|i: int| 0 <= i < n ==> s[i] == s.subrange(0, n)[i]);
    }
    assert(s.subrange(8, 16) =~= f.subrange(8, 16)) by {
        assert(forall|i: int| 0 <= i < n ==> s[i] == s.subrange(0, n)[i]);
    }
    assert(f.subrange(0, 8) =~= spec_u64_to_le_bytes(k.len() as u64));
    assert(f.subrange(8, 16) =~= spec_u64_to_le_bytes(v.len() as u64));
    assert(key_bytes(s) =~= k) by {
        assert(forall|i: int| 0 <= i < n ==> s[i] == s.subrange(0, n)[i]);
    }
    assert(value_bytes(s) =~= v) by {
        assert(forall|i: int| 0 <= i < n ==> s[i] == s.subrange(0, n)[i]);
    }
}

} // verus!
