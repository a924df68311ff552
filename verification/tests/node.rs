use kvnode::actor::{apply_command, PutRequest, StoreCommand};
use kvnode::node::{
    ack_status, get_response, ready_status, NodeError, StoredValue, STATUS_INTERNAL_SERVER_ERROR,
    STATUS_NOT_FOUND, STATUS_OK, STATUS_SERVICE_UNAVAILABLE,
};
use kvnode::storage::KVStore;

fn get(store: &mut KVStore, key: &str) -> (u16, StoredValue) {
    let reply = apply_command(store, StoreCommand::Get { key: key.into() });
    get_response(key.into(), reply)
}

#[test]
fn test_ops() {
    let mut store = KVStore::default();
    let (status, _) = get(&mut store, "unknown_key");
    assert_eq!(status, STATUS_NOT_FOUND);

    // The store answers a put; the answer arriving is what makes it OK.
    let reply = apply_command(
        &mut store,
        StoreCommand::Put {
            record: PutRequest {
                key: "new_key".into(),
                value: "new_value".into(),
            },
        },
    );
    assert_eq!(reply, None);
    assert_eq!(ack_status(true), STATUS_OK);

    let (status, body) = get(&mut store, "new_key");
    assert_eq!(status, STATUS_OK);
    assert_eq!(
        body,
        StoredValue {
            key: "new_key".into(),
            value: Some("new_value".into())
        }
    );

    let reply = apply_command(&mut store, StoreCommand::Delete { key: "new_key".into() });
    assert_eq!(reply, None);
    assert_eq!(ack_status(true), STATUS_OK);
    let (status, body) = get(&mut store, "new_key");
    assert_eq!(status, STATUS_NOT_FOUND);
    assert_eq!(body.value, None);
}

#[test]
fn status_codes() {
    assert_eq!(STATUS_OK, 200);
    assert_eq!(STATUS_NOT_FOUND, 404);
    assert_eq!(ack_status(false), STATUS_INTERNAL_SERVER_ERROR);
    assert_eq!(ack_status(false), 500);
    assert_eq!(ready_status(true), 200);
    assert_eq!(ready_status(false), STATUS_SERVICE_UNAVAILABLE);
    assert_eq!(ready_status(false), 503);
}

#[test]
fn node_error_message() {
    let e = NodeError::KeyDidNotExist("k".into());
    assert_eq!(e.message(), "Key did not exist in KV store");
}
