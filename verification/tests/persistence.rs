use kvnode::actor::{PutRequest, StoreCommand};
use kvnode::persistence::{scan_log, LogWriter, WalError, FIRST_SEQ};
use kvnode::record::{Record, RecordType};

fn put_str(out: &mut Vec<u8>, s: &str) {
    out.extend_from_slice(&(s.len() as u32).to_be_bytes());
    out.extend_from_slice(s.as_bytes());
}

fn take_str(bytes: &[u8], pos: &mut usize) -> String {
    let n = u32::from_be_bytes(bytes[*pos..*pos + 4].try_into().unwrap()) as usize;
    let s = String::from_utf8(bytes[*pos + 4..*pos + 4 + n].to_vec()).unwrap();
    *pos += 4 + n;
    s
}

fn serialize(cmd: &StoreCommand) -> Vec<u8> {
    let mut out = Vec::new();
    match cmd {
        StoreCommand::Get { key } => {
            out.push(0);
            put_str(&mut out, key);
        }
        StoreCommand::Put { record } => {
            out.push(1);
            put_str(&mut out, &record.key);
            put_str(&mut out, &record.value);
        }
        StoreCommand::Delete { key } => {
            out.push(2);
            put_str(&mut out, key);
        }
    }
    out
}

fn deserialize(bytes: &[u8]) -> StoreCommand {
    let mut pos = 1;
    match bytes[0] {
        0 => StoreCommand::Get { key: take_str(bytes, &mut pos) },
        1 => {
            let key = take_str(bytes, &mut pos);
            let value = take_str(bytes, &mut pos);
            StoreCommand::Put { record: PutRequest { key, value } }
        }
        _ => StoreCommand::Delete { key: take_str(bytes, &mut pos) },
    }
}

#[test]
fn test_wal() {
    let mut operations = Vec::with_capacity(10);
    operations.push(StoreCommand::Get { key: "key".into() });
    operations.push(StoreCommand::Put {
        record: PutRequest {
            key: "key".into(),
            value: "a value".into(),
        },
    });
    operations.push(StoreCommand::Delete { key: "key".into() });
    operations.push(StoreCommand::Put {
        record: PutRequest {
            key: "key2".into(),
            value: "a value".into(),
        },
    });
    operations.push(StoreCommand::Get { key: "key".into() });
    operations.push(StoreCommand::Get { key: "key".into() });

    let mut writer = LogWriter::new();
    let mut wal: Vec<u8> = Vec::new();
    for op in &operations {
        writer.append(serialize(op), &mut wal).unwrap();
    }

    let scan = scan_log(&wal);
    assert!(!scan.torn);
    assert_eq!(scan.valid_len, wal.len());
    let actual: Vec<StoreCommand> = scan.records.iter().map(|r| deserialize(&r.data)).collect();
    // Note GET is not ommited since we are not calling through node_actor
    assert_eq!(actual.len(), operations.len());
    for (r_actual, r_expected) in actual.iter().zip(operations) {
        assert_eq!(*r_actual, r_expected);
    }
}

#[test]
fn records_are_numbered_in_order() {
    let mut writer = LogWriter::new();
    let mut wal = Vec::new();
    for payload in [b"a".to_vec(), b"bb".to_vec(), Vec::new()] {
        writer.append(payload, &mut wal).unwrap();
    }
    let scan = scan_log(&wal);
    let seqs: Vec<u64> = scan.records.iter().map(|r| r.seq).collect();
    assert_eq!(seqs, vec![FIRST_SEQ, FIRST_SEQ + 1, FIRST_SEQ + 2]);
    assert_eq!(FIRST_SEQ, 1);
    assert!(scan.records.iter().all(|r| r._type == RecordType::DataOp.code()));
    assert!(scan.records.iter().all(|r| r.is_data_op()));
    assert_eq!(scan.records[1].data, b"bb".to_vec());
    assert_eq!(scan.records[1].len, 22);
    // Each record is the one Record::init_v1_op makes.
    let mut expected = Vec::new();
    Record::init_v1_op(1, b"a".to_vec()).write_to(&mut expected);
    assert_eq!(&wal[..21], &expected[..]);
}

#[test]
fn torn_tail_is_truncated() {
    let mut writer = LogWriter::new();
    let mut wal = Vec::new();
    writer.append(b"first".to_vec(), &mut wal).unwrap();
    writer.append(b"second".to_vec(), &mut wal).unwrap();
    let whole = wal.len();
    let first_len = 25;
    for cut in [first_len, first_len + 1, first_len + 3, first_len + 4, whole - 1] {
        let scan = scan_log(&wal[..cut]);
        assert_eq!(scan.records.len(), 1);
        assert_eq!(scan.records[0].data, b"first".to_vec());
        assert_eq!(scan.valid_len, first_len);
        assert_eq!(scan.torn, cut > first_len);
    }
}

#[test]
fn corrupted_record_stops_recovery() {
    let mut writer = LogWriter::new();
    let mut wal = Vec::new();
    writer.append(b"first".to_vec(), &mut wal).unwrap();
    writer.append(b"second".to_vec(), &mut wal).unwrap();
    writer.append(b"third".to_vec(), &mut wal).unwrap();
    wal[25 + 17] ^= 0xff;
    let scan = scan_log(&wal);
    assert_eq!(scan.records.len(), 1);
    assert_eq!(scan.valid_len, 25);
    assert!(scan.torn);
}

#[test]
fn empty_log_recovers_nothing() {
    let scan = scan_log(&[]);
    assert!(!scan.torn);
    assert!(scan.records.is_empty());
    assert_eq!(scan.valid_len, 0);
    let scan = scan_log(&[0, 0, 0]);
    assert!(scan.torn);
    assert_eq!(scan.valid_len, 0);
}

#[test]
fn resumed_writer_numbers_on() {
    let mut writer = LogWriter::new();
    let mut wal = Vec::new();
    writer.append(b"one".to_vec(), &mut wal).unwrap();
    writer.append(b"two".to_vec(), &mut wal).unwrap();
    let mut resumed = LogWriter::resume(&wal).unwrap();
    resumed.append(b"three".to_vec(), &mut wal).unwrap();
    let scan = scan_log(&wal);
    assert!(!scan.torn);
    let seqs: Vec<u64> = scan.records.iter().map(|r| r.seq).collect();
    assert_eq!(seqs, vec![1, 2, 3]);
    let mut fresh = LogWriter::resume(&[]).unwrap();
    let mut empty = Vec::new();
    fresh.append(Vec::new(), &mut empty).unwrap();
    assert_eq!(scan_log(&empty).records[0].seq, FIRST_SEQ);
}

#[test]
fn resume_refuses_logs_it_cannot_continue() {
    let mut writer = LogWriter::new();
    let mut wal = Vec::new();
    writer.append(b"one".to_vec(), &mut wal).unwrap();
    let mut torn = wal.clone();
    torn.push(0);
    assert!(matches!(LogWriter::resume(&torn), Err(WalError::NotWhole)));

    let mut out_of_order = Vec::new();
    Record::init_v1_op(5, b"a".to_vec()).write_to(&mut out_of_order);
    Record::init_v1_op(5, b"b".to_vec()).write_to(&mut out_of_order);
    assert!(matches!(LogWriter::resume(&out_of_order), Err(WalError::SequenceOutOfOrder)));

    let mut exhausted = Vec::new();
    Record::init_v1_op(u64::MAX, b"a".to_vec()).write_to(&mut exhausted);
    assert!(matches!(LogWriter::resume(&exhausted), Err(WalError::SequenceExhausted)));

    let mut gap = Vec::new();
    Record::init_v1_op(3, b"a".to_vec()).write_to(&mut gap);
    Record::init_v1_op(9, b"b".to_vec()).write_to(&mut gap);
    let mut w = LogWriter::resume(&gap).unwrap();
    w.append(b"c".to_vec(), &mut gap).unwrap();
    assert_eq!(scan_log(&gap).records[2].seq, 10);
}
