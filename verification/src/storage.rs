//! The storage collaborator's wire protocol, and the checks on its
//! replies.
//!
//! Service bundles live in content-addressed storage, reached over
//! request/reply messages: a request names a path and asks either for the
//! content id of a file or for a directory listing. The driver carries the
//! messages; the library builds the requests and checks that each reply
//! carries the expected variant — a mismatched reply is a fatal
//! orchestration error, never retried.

use vstd::prelude::*;

use crate::cap::ContentId;
use crate::errors::InitError;

verus! {

/// What a storage request asks of its target path.
#[derive(Debug, PartialEq, Eq)]
pub enum StorageRequestKind {
    /// The content id of the file at the path.
    Get,
    /// The entry names under the path.
    List,
}

/// One storage request: a target path and what is asked of it. A reply
/// capability rides along when the driver sends it.
#[derive(Debug)]
pub struct StorageRequest {
    pub target: String,
    pub kind: StorageRequestKind,
}

/// A successful storage reply.
#[derive(Debug)]
pub enum StorageSuccess {
    /// The content id of a file.
    Get(ContentId),
    /// The entry names of a directory.
    List(Vec<String>),
}

/// The reply to a file request: its content id, or a fatal error if the
/// collaborator answered with the wrong variant.
pub fn expect_get(reply: StorageSuccess) -> (r: Result<ContentId, InitError>)
    ensures
        match reply {
            StorageSuccess::Get(id) => r == Ok::<ContentId, InitError>(id),
            StorageSuccess::List(_) => r == Err::<ContentId, InitError>(
                InitError::UnexpectedStorageReply,
            ),
        },
{
    match reply {
        StorageSuccess::Get(id) => Ok(id),
        StorageSuccess::List(_) => Err(InitError::UnexpectedStorageReply),
    }
}

/// The reply to a listing request: the entry names, or a fatal error if
/// the collaborator answered with the wrong variant.
pub fn expect_list(reply: StorageSuccess) -> (r: Result<Vec<String>, InitError>)
    ensures
        match reply {
            StorageSuccess::List(names) => r == Ok::<Vec<String>, InitError>(names),
            StorageSuccess::Get(_) => r == Err::<Vec<String>, InitError>(
                InitError::UnexpectedStorageReply,
            ),
        },
{
    match reply {
        StorageSuccess::List(names) => Ok(names),
        StorageSuccess::Get(_) => Err(InitError::UnexpectedStorageReply),
    }
}

} // verus!
