//! The answers of the node's HTTP interface.
use vstd::prelude::*;
use vstd::string::StringExecFns;

verus! {

/// Status code: the request succeeded.
pub const STATUS_OK: u16 = 200;

/// Status code: no value is stored under the key.
pub const STATUS_NOT_FOUND: u16 = 404;

/// Status code: the store did not answer.
pub const STATUS_INTERNAL_SERVER_ERROR: u16 = 500;

/// Status code: the store is not ready.
pub const STATUS_SERVICE_UNAVAILABLE: u16 = 503;

/// Errors of the node's interface.
#[derive(Debug)]
pub enum NodeError {
    KeyDidNotExist(String),
}

impl NodeError {
    /// The error's message.
    pub fn message(&self) -> (m: String)
        ensures
            m@ == "Key did not exist in KV store"@,
    {
        String::from_str("Key did not exist in KV store")
    }
}

/// The body of the answer to a read: the key and, if found, its value.
#[derive(Debug, PartialEq)]
pub struct StoredValue {
    pub key: String,
    pub value: Option<String>,
}

/// The answer to a read of `key`, given what the store replied.
pub fn get_response(key: String, found: Option<String>) -> (r: (u16, StoredValue))
    ensures
        r.1.key == key,
        r.1.value == found,
        r.0 == (if found is Some {
            STATUS_OK
        } else {
            STATUS_NOT_FOUND
        }),
{
    match found {
        Some(val) => (STATUS_OK, StoredValue { key, value: Some(val) }),
        None => (STATUS_NOT_FOUND, StoredValue { key, value: None }),
    }
}

/// The status of a write or delete: success once the store has
/// acknowledged it, a server error where the acknowledgement never came.
pub fn ack_status(acknowledged: bool) -> (s: u16)
    ensures
        s == (if acknowledged {
            STATUS_OK
        } else {
            STATUS_INTERNAL_SERVER_ERROR
        }),
{
    if acknowledged {
        STATUS_OK
    } else {
        STATUS_INTERNAL_SERVER_ERROR
    }
}

/// The status of a readiness probe: ready when the store answered a
/// request in time.
pub fn ready_status(answered_in_time: bool) -> (s: u16)
    ensures
        s == (if answered_in_time {
            STATUS_OK
        } else {
            STATUS_SERVICE_UNAVAILABLE
        }),
{
    if answered_in_time {
        STATUS_OK
    } else {
        STATUS_SERVICE_UNAVAILABLE
    }
}

} // verus!
