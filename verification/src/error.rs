use vstd::prelude::*;

verus! {

/// The failures that the record store reports to its callers.
///
/// A missing key on update or removal is not an error: both succeed
/// silently, as the store's documentation states.
#[derive(Clone, Copy, Debug, PartialEq, Eq, Structural)]
pub enum StoreError {
    /// The backing file cannot be opened, initialised, read or written.
    StorageUnavailable,
    /// An insert collided with an alias name that is already stored.
    DuplicateKey,
    /// Imported text is not a well-formed record table.
    MalformedInput,
}

impl StoreError {
    /// What each failure means, in words.
    pub open spec fn message_spec(&self) -> Seq<char> {
        match self {
            StoreError::StorageUnavailable => "the backing store cannot be reached"@,
            StoreError::DuplicateKey => "an alias with this name already exists"@,
            StoreError::MalformedInput => "the imported text is not a well-formed record table"@,
        }
    }

    /// A short human-readable description of the failure.
    pub fn message(&self) -> (r: &'static str)
        ensures
            r@ == self.message_spec(),
    {
        match self {
            StoreError::StorageUnavailable => "the backing store cannot be reached",
            StoreError::DuplicateKey => "an alias with this name already exists",
            StoreError::MalformedInput => "the imported text is not a well-formed record table",
        }
    }
}

} // verus!
