//! Errors of the folder-backed store.

use vstd::prelude::*;

verus! {

/// What is wrong with a bucket file, or with a record that should go into one.
#[derive(Debug, Clone, Copy, PartialEq, Eq)]
pub enum IoFault {
    /// A file is shorter than its own header.
    UnexpectedEof,
    /// A file or a record in it breaks the bucket layout.
    InvalidData,
    /// A record or a grown file would not fit the address space.
    TooLarge,
    /// A bucket file is not stored under the name that its slot size gives.
    NotFound,
}

/// Why an operation on the folder-backed store failed.
#[derive(Debug)]
pub enum FolderCacheError {
    /// The bytes of a stored key are not a key.
    Decode(rmp_serde::decode::Error),
    /// A key could not be turned into bytes.
    Encode(rmp_serde::encode::Error),
    /// A bucket file cannot be used as it is.
    IO(IoFault),
    /// The key is not in the store.
    Nothing,
}

impl FolderCacheError {
    /// What the error says, in words.
    pub fn message(&self) -> (r: &'static str)
        ensures
            r@ == (match self {
                FolderCacheError::Decode(_) => "decode error"@,
                FolderCacheError::Encode(_) => "encode error"@,
                FolderCacheError::IO(_) => "I/O error"@,
                FolderCacheError::Nothing => "Not present in cache"@,
            }),
    {
        match self {
            FolderCacheError::Decode(_) => "decode error",
            FolderCacheError::Encode(_) => "encode error",
            FolderCacheError::IO(_) => "I/O error",
            FolderCacheError::Nothing => "Not present in cache",
        }
    }
}

} // verus!
