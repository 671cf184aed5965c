//! The errors that the storage layers report.

use vstd::prelude::*;

verus! {

/// Every way in which an operation of the store, the buffer pool or the
/// tree can end without doing its work.
#[derive(Debug, Clone, Copy, PartialEq, Eq, Structural)]
pub enum StorageError {
    /// The medium failed, or a read or write was short.
    IoError,
    /// The page identifier names no allocated page.
    PageNotFound,
    /// Every frame of the buffer pool is pinned.
    PoolExhausted,
    /// The page is still pinned.
    PageInUse,
    /// The key is not in the tree.
    NotFound,
    /// The key is already in the tree.
    DuplicateKey,
    /// A fetched page does not hold a structurally valid node.
    CorruptNode,
}

impl StorageError {
    /// The text that describes the error.
    pub open spec fn spec_message(self) -> Seq<char> {
        match self {
            StorageError::IoError => "i/o error"@,
            StorageError::PageNotFound => "page not found"@,
            StorageError::PoolExhausted => "buffer pool exhausted"@,
            StorageError::PageInUse => "page in use"@,
            StorageError::NotFound => "key not found"@,
            StorageError::DuplicateKey => "duplicate key"@,
            StorageError::CorruptNode => "corrupt node"@,
        }
    }

    /// A short description of the error, for display.
    pub fn message(&self) -> (r: String)
        ensures
            r@ == self.spec_message(),
    {
        match self {
            StorageError::IoError => "i/o error".to_owned(),
            StorageError::PageNotFound => "page not found".to_owned(),
            StorageError::PoolExhausted => "buffer pool exhausted".to_owned(),
            StorageError::PageInUse => "page in use".to_owned(),
            StorageError::NotFound => "key not found".to_owned(),
            StorageError::DuplicateKey => "duplicate key".to_owned(),
            StorageError::CorruptNode => "corrupt node".to_owned(),
        }
    }

    /// Whether a caller can recover by releasing handles or growing the
    /// pool: true of the errors that the buffer pool raises.
    pub fn is_recoverable(&self) -> (r: bool)
        ensures
            r == (*self == StorageError::PageNotFound || *self == StorageError::PoolExhausted
                || *self == StorageError::PageInUse),
    {
        match self {
            StorageError::PageNotFound | StorageError::PoolExhausted | StorageError::PageInUse => true,
            _ => false,
        }
    }
}

} // verus!
