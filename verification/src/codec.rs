//! The key codec: keys are stored as MessagePack, written and read by
//! `rmp_serde`. Nothing here is proved; the contracts say what the callers
//! rely on.

use vstd::prelude::*;

verus! {

/// The error of `rmp_serde::encode::to_vec`, carried as it is.
#[verifier::external_type_specification]
#[verifier::external_body]
pub struct ExEncodeError(rmp_serde::encode::Error);

/// The error of `rmp_serde::decode::from_slice`, carried as it is.
#[verifier::external_type_specification]
#[verifier::external_body]
pub struct ExDecodeError(rmp_serde::decode::Error);

/// The bytes that `rmp_serde::encode::to_vec` gives for the key `k`, or
/// `None` where it fails.
pub uninterp spec fn key_encoding(k: u64) -> Option<Seq<u8>>;

/// The key that `rmp_serde::decode::from_slice` reads from `bytes`, or `None`
/// where it fails.
pub uninterp spec fn key_decoding(bytes: Seq<u8>) -> Option<u64>;

/// Calls `rmp_serde::encode::to_vec` on a key. Trusted: the result is a
/// function of the key alone, and the bytes of a key that was encoded read
/// back as that key (an unsigned integer is written in the shortest
/// MessagePack integer form, which the decoder accepts for `u64`).
#[verifier::external_body]
pub(crate) fn encode_key(k: &u64) -> (r: Result<Vec<u8>, rmp_serde::encode::Error>)
    ensures
        match r {
            Ok(b) => key_encoding(*k) == Some(b@) && key_decoding(b@) == Some(*k),
            Err(_) => key_encoding(*k) is None,
        },
{
    rmp_serde::encode::to_vec(k)
}

/// Calls `rmp_serde::decode::from_slice` for a key. Trusted: the result is a
/// function of the bytes alone.
#[verifier::external_body]
pub(crate) fn decode_key(bytes: &[u8]) -> (r: Result<u64, rmp_serde::decode::Error>)
    ensures
        match r {
            Ok(k) => key_decoding(bytes@) == Some(k),
            Err(_) => key_decoding(bytes@) is None,
        },
{
    rmp_serde::decode::from_slice(bytes)
}

} // verus!
