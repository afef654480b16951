//! Errors of the store and of commits.
use vstd::prelude::*;

verus! {

/// What an operation on the store or a commit of the overlay can fail with.
#[derive(Clone, Debug, PartialEq, Eq)]
pub enum Error {
    /// The store is already open.
    AlreadyOpen,
    /// The store is closed.
    IsClosed,
    /// The durable engine reported a failure.
    BackingStoreFailure(String),
    /// Content inserted under this key is already in the backing store.
    InsertionInvalid(Vec<u8>),
    /// The key removed is not in the backing store.
    DeletionInvalid(Vec<u8>),
    /// The net reference count of the key is not -1, 0 or 1.
    InvalidReferenceCount(Vec<u8>, i32),
}

/// The reason a commit is refused, over plain values.
pub enum CommitFault {
    InsertionInvalid(Seq<u8>),
    DeletionInvalid(Seq<u8>),
    InvalidReferenceCount(Seq<u8>, int),
}

impl Error {
    /// The commit fault this error stands for, if it is one.
    pub open spec fn fault(&self) -> Option<CommitFault> {
        match self {
            Error::InsertionInvalid(k) => Some(CommitFault::InsertionInvalid(k@)),
            Error::DeletionInvalid(k) => Some(CommitFault::DeletionInvalid(k@)),
            Error::InvalidReferenceCount(k, rc) => Some(
                CommitFault::InvalidReferenceCount(k@, *rc as int),
            ),
            _ => None,
        }
    }
}

} // verus!
