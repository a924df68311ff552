use kvnode::actor::{apply_command, serve_command, PutRequest, StoreCommand};
use kvnode::persistence::{scan_log, LogWriter};
use kvnode::storage::KVStore;

fn get_key(store: &mut KVStore, key: String) -> Option<String> {
    apply_command(store, StoreCommand::Get { key })
}

#[test]
fn actor_fileops() {
    let mut store = KVStore::default();

    // Check key not exist
    assert!(get_key(&mut store, "key".into()).is_none());

    // insert key
    let response = apply_command(
        &mut store,
        StoreCommand::Put {
            record: PutRequest {
                key: "key".into(),
                value: "new_value".into(),
            },
        },
    );
    assert_eq!(None, response);

    // Check key exists
    let response = apply_command(&mut store, StoreCommand::Get { key: "key".into() });
    assert_eq!(response, Some("new_value".into()));
    assert_eq!(get_key(&mut store, "key".into()), Some("new_value".into()));

    // Remove key
    let response = apply_command(&mut store, StoreCommand::Delete { key: "key".into() });
    assert_eq!(None, response);
    // Check key not exist
    assert!(get_key(&mut store, "key".into()).is_none());
}

#[test]
fn only_changes_are_logged() {
    assert!(!StoreCommand::Get { key: "k".into() }.is_logged());
    assert!(StoreCommand::Delete { key: "k".into() }.is_logged());
    assert!(StoreCommand::Put {
        record: PutRequest {
            key: "k".into(),
            value: "v".into()
        }
    }
    .is_logged());
}

#[test]
fn replaying_logged_commands_restores_the_store() {
    let history = vec![
        StoreCommand::Put { record: PutRequest { key: "a".into(), value: "1".into() } },
        StoreCommand::Get { key: "a".into() },
        StoreCommand::Put { record: PutRequest { key: "b".into(), value: "2".into() } },
        StoreCommand::Delete { key: "a".into() },
        StoreCommand::Get { key: "b".into() },
    ];
    let replayed = vec![
        StoreCommand::Put { record: PutRequest { key: "a".into(), value: "1".into() } },
        StoreCommand::Put { record: PutRequest { key: "b".into(), value: "2".into() } },
        StoreCommand::Delete { key: "a".into() },
    ];
    let mut live = KVStore::default();
    for cmd in history {
        apply_command(&mut live, cmd);
    }
    let mut recovered = KVStore::default();
    for cmd in replayed {
        assert!(cmd.is_logged());
        apply_command(&mut recovered, cmd);
    }
    for key in ["a", "b", "c"] {
        assert_eq!(get_key(&mut live, key.into()), get_key(&mut recovered, key.into()));
    }
}

#[test]
fn serving_logs_changes_before_answering() {
    let mut store = KVStore::default();
    let mut writer = LogWriter::new();
    let mut wal = Vec::new();

    let served = serve_command(&mut store, &mut writer, StoreCommand::Get { key: "k".into() }, Vec::new())
        .unwrap();
    assert!(served.log.is_empty());
    assert_eq!(served.reply, None);

    let put = StoreCommand::Put { record: PutRequest { key: "k".into(), value: "v".into() } };
    let served = serve_command(&mut store, &mut writer, put, b"put k v".to_vec()).unwrap();
    assert_eq!(served.reply, None);
    assert_eq!(served.log.len(), 27);
    wal.extend(served.log);

    let served = serve_command(&mut store, &mut writer, StoreCommand::Get { key: "k".into() }, Vec::new())
        .unwrap();
    assert_eq!(served.reply, Some("v".into()));
    assert!(served.log.is_empty());

    let served =
        serve_command(&mut store, &mut writer, StoreCommand::Delete { key: "k".into() }, b"del k".to_vec())
            .unwrap();
    wal.extend(served.log);
    assert_eq!(get_key(&mut store, "k".into()), None);

    let scan = scan_log(&wal);
    assert!(!scan.torn);
    assert_eq!(scan.records.len(), 2);
    assert_eq!(scan.records[0].data, b"put k v".to_vec());
    assert_eq!(scan.records[0].seq, 1);
    assert_eq!(scan.records[1].data, b"del k".to_vec());
    assert_eq!(scan.records[1].seq, 2);
}

#[test]
fn reads_see_the_last_write() {
    let history = vec![
        StoreCommand::Put { record: PutRequest { key: "a".into(), value: "1".into() } },
        StoreCommand::Put { record: PutRequest { key: "a".into(), value: "2".into() } },
        StoreCommand::Put { record: PutRequest { key: "b".into(), value: "3".into() } },
        StoreCommand::Delete { key: "b".into() },
    ];
    let mut store = KVStore::default();
    for cmd in history {
        assert_eq!(apply_command(&mut store, cmd), None);
    }
    assert_eq!(get_key(&mut store, "a".into()), Some("2".into()));
    assert_eq!(get_key(&mut store, "b".into()), None);
}
