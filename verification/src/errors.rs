use vstd::prelude::*;

verus! {

/// Classification of every failure the storage model can report.
///
/// The first five are domain-contract violations that a caller can act on;
/// `StoreUnavailable` is fatal: the store cannot take another record
/// (an identifier clash or an exhausted blob counter).
#[derive(Clone, Copy, Debug, PartialEq, Eq, Structural)]
pub enum StoreError {
    /// The addressed entity does not exist.
    NotFound,
    /// A supplied parent collection id does not resolve.
    InvalidParent,
    /// The target collection of a book does not resolve.
    CollectionNotFound,
    /// A collection cannot be deleted while it has child collections.
    HasChildren,
    /// An upload's declared content type is not the EPUB archive type.
    InvalidFormat,
    /// An uploaded archive cannot be parsed, or names no title.
    CorruptArchive,
    /// The collection exists but carries no thumbnail.
    NoThumbnail,
    /// The backing store cannot complete the operation.
    StoreUnavailable,
}

impl StoreError {
    /// The human-readable reason string for this failure.
    pub open spec fn spec_message(self) -> Seq<char> {
        match self {
            StoreError::NotFound => "not found"@,
            StoreError::InvalidParent => "parent collection does not exist"@,
            StoreError::CollectionNotFound => "collection does not exist"@,
            StoreError::HasChildren => "collection still has children"@,
            StoreError::InvalidFormat => "file is not an epub"@,
            StoreError::CorruptArchive => "epub archive cannot be read"@,
            StoreError::NoThumbnail => "collection has no thumbnail"@,
            StoreError::StoreUnavailable => "store unavailable"@,
        }
    }

    pub fn message(&self) -> (r: &'static str)
        ensures
            r@ == self.spec_message(),
    {
        match self {
            StoreError::NotFound => "not found",
            StoreError::InvalidParent => "parent collection does not exist",
            StoreError::CollectionNotFound => "collection does not exist",
            StoreError::HasChildren => "collection still has children",
            StoreError::InvalidFormat => "file is not an epub",
            StoreError::CorruptArchive => "epub archive cannot be read",
            StoreError::NoThumbnail => "collection has no thumbnail",
            StoreError::StoreUnavailable => "store unavailable",
        }
    }
}

} // verus!
