//! Everything that can go wrong in the storage engine.

use vstd::prelude::*;

verus! {

/// Why an operation of the storage engine was refused.
#[derive(Clone, Copy, Debug, PartialEq, Eq, Structural)]
pub enum StorageError {
    /// An index page whose header does not decode.
    HeaderCorrupt,
    /// An index page without room for one more cell.
    PageOverflow,
    /// A page already holds a cell with the key.
    DuplicateKey,
    /// A cell of a leaf page without a heap pointer.
    MissingHeapPointer,
    /// A lookup through a cell without a heap pointer.
    NoHeapPointer,
    /// A cell of an internal page without a child pointer.
    MissingChildPointer,
    /// There is no cell at the index.
    CellOutOfBounds,
    /// A heap page without room for one more record.
    HeapPageOverflow,
    /// Every frame of the buffer pool is pinned.
    PoolFull,
    /// The file ends before the page that was asked for.
    ShortRead,
    /// A lookup of a key that the tree does not hold.
    EntryNotFound,
    /// An insertion of a key that the tree already holds.
    KeyExists,
    /// A deletion of a key that the tree does not hold.
    KeyNotFound,
    /// A path through the tree without a page on it.
    NoPage,
    /// The log file holds less than a header.
    WalTruncated,
}

impl StorageError {
    /// The text shown to users.
    pub open spec fn text(self) -> Seq<char> {
        match self {
            StorageError::HeaderCorrupt => "Couldn't deserialize the header"@,
            StorageError::PageOverflow => "Page overflow"@,
            StorageError::DuplicateKey => "duplicate key"@,
            StorageError::MissingHeapPointer => "Leaf cell missing heap pointer"@,
            StorageError::NoHeapPointer => "Couldn't find the header pointer"@,
            StorageError::MissingChildPointer => "Internal cell missing child pointer"@,
            StorageError::CellOutOfBounds => "Cell index out of bounds"@,
            StorageError::HeapPageOverflow => "Heap page overflow!"@,
            StorageError::PoolFull => "Buffer pool full: all pages are pinned"@,
            StorageError::ShortRead => "failed to fill whole buffer"@,
            StorageError::EntryNotFound => "Entry not found"@,
            StorageError::KeyExists => "Key already exists"@,
            StorageError::KeyNotFound => "Key not found"@,
            StorageError::NoPage => "No page found"@,
            StorageError::WalTruncated => "wal file exists but header is truncated/corrupt"@,
        }
    }

    /// The message for this error.
    pub fn message(&self) -> (m: &'static str)
        ensures
            m@ == self.text(),
    {
        match self {
            StorageError::HeaderCorrupt => "Couldn't deserialize the header",
            StorageError::PageOverflow => "Page overflow",
            StorageError::DuplicateKey => "duplicate key",
            StorageError::MissingHeapPointer => "Leaf cell missing heap pointer",
            StorageError::NoHeapPointer => "Couldn't find the header pointer",
            StorageError::MissingChildPointer => "Internal cell missing child pointer",
            StorageError::CellOutOfBounds => "Cell index out of bounds",
            StorageError::HeapPageOverflow => "Heap page overflow!",
            StorageError::PoolFull => "Buffer pool full: all pages are pinned",
            StorageError::ShortRead => "failed to fill whole buffer",
            StorageError::EntryNotFound => "Entry not found",
            StorageError::KeyExists => "Key already exists",
            StorageError::KeyNotFound => "Key not found",
            StorageError::NoPage => "No page found",
            StorageError::WalTruncated => "wal file exists but header is truncated/corrupt",
        }
    }
}

} // verus!
