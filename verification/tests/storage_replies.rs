//! Storage reply validation.

use kindling::ContentId;
use kindling::InitError;
use kindling::StorageSuccess;
use kindling::storage::expect_get;
use kindling::storage::expect_list;

#[test]
fn a_get_reply_yields_its_content_id() {
    let reply = StorageSuccess::Get(ContentId { id: 42 });
    assert_eq!(expect_get(reply), Ok(ContentId { id: 42 }));
}

#[test]
fn a_list_reply_yields_its_entries() {
    let reply = StorageSuccess::List(vec!["a".to_string(), "b".to_string()]);
    assert_eq!(expect_list(reply), Ok(vec!["a".to_string(), "b".to_string()]));
}

#[test]
fn a_mismatched_reply_variant_is_fatal() {
    let reply = StorageSuccess::List(Vec::new());
    assert_eq!(expect_get(reply), Err(InitError::UnexpectedStorageReply));

    let reply = StorageSuccess::Get(ContentId { id: 1 });
    assert_eq!(expect_list(reply), Err(InitError::UnexpectedStorageReply));
}
