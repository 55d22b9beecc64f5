use resp_server::commands::{extract_command, CommandContext, CommandExecutor};
use resp_server::config::Configuration;
use resp_server::parser::{parse_message, DecodeResult, Value};
use resp_server::storage::{DataContainer, RDBFile, RDBValidationResult, RdbError, Storage};

fn record(expire: Option<&[u8]>, key: &[u8], value: &[u8]) -> Vec<u8> {
    let mut out = Vec::new();
    if let Some(prefix) = expire {
        out.extend_from_slice(prefix);
    }
    out.push(0x00);
    out.push(key.len() as u8);
    out.extend_from_slice(key);
    out.push(value.len() as u8);
    out.extend_from_slice(value);
    out
}

fn snapshot(records: &[Vec<u8>]) -> Vec<u8> {
    let mut out = Vec::new();
    out.extend_from_slice(b"REDIS0011");
    out.push(0xFB);
    out.push(records.len() as u8);
    out.push(0x00);
    for r in records {
        out.extend_from_slice(r);
    }
    out.push(0xFF);
    out
}

fn name() -> Vec<u8> {
    b"dump.rdb".to_vec()
}

#[test]
fn startup_from_snapshot_serves_stored_key() {
    let bytes = snapshot(&[record(None, b"x", b"y")]);
    let storage = Storage::load_from_rdb(&name(), bytes, 0).expect("snapshot should load");
    let executor = CommandExecutor::new();
    let mut ctx = CommandContext::new(storage, Configuration::new());
    let (value, _) = match parse_message(b"*2\r\n$3\r\nGET\r\n$1\r\nx\r\n") {
        DecodeResult::Done(v, n) => (v, n),
        other => panic!("bad decode {:?}", other),
    };
    let (cmd, args) = extract_command(value).unwrap();
    let reply = executor.try_exec_at(cmd, args, &mut ctx, 1);
    assert_eq!(reply.serialize(), b"$1\r\ny\r\n".to_vec());
}

#[test]
fn expired_entries_are_dropped_at_load() {
    // 0xFC: eight little-endian bytes of milliseconds; deadline 1000.
    let dead = record(
        Some(&[0xFC, 0xE8, 0x03, 0, 0, 0, 0, 0, 0]),
        b"old",
        b"gone",
    );
    let live = record(None, b"new", b"here");
    let bytes = snapshot(&[dead, live]);
    let mut storage = Storage::load_from_rdb(&name(), bytes, 2000).expect("load");
    assert_eq!(storage.get_at(&b"old".to_vec(), 2000), None);
    assert_eq!(
        storage.get_at(&b"new".to_vec(), 2000),
        Some(Value::BulkString(b"here".to_vec()))
    );
}

#[test]
fn seconds_prefix_scales_to_milliseconds() {
    // 0xFD: four little-endian bytes of seconds; 3 s becomes 3000 ms.
    let r = record(Some(&[0xFD, 0x03, 0, 0, 0]), b"k", b"v");
    let bytes = snapshot(&[r]);
    let mut storage = Storage::load_from_rdb(&name(), bytes.clone(), 2999).expect("load");
    assert_eq!(
        storage.get_at(&b"k".to_vec(), 2999),
        Some(Value::BulkString(b"v".to_vec()))
    );
    let mut late = Storage::load_from_rdb(&name(), bytes, 3000).expect("load");
    assert_eq!(late.get_at(&b"k".to_vec(), 3000), None);
}

#[test]
fn later_records_replace_earlier_ones() {
    let bytes = snapshot(&[record(None, b"k", b"first"), record(None, b"k", b"second")]);
    let mut storage = Storage::load_from_rdb(&name(), bytes, 0).expect("load");
    assert_eq!(
        storage.get_at(&b"k".to_vec(), 0),
        Some(Value::BulkString(b"second".to_vec()))
    );
}

#[test]
fn unrecognized_bytes_before_section_are_skipped() {
    let mut bytes = Vec::new();
    bytes.extend_from_slice(b"REDIS0011junkjunk");
    bytes.push(0xFB);
    bytes.push(1);
    bytes.push(0);
    bytes.extend_from_slice(&record(None, b"a", b"b"));
    bytes.push(0xFF);
    let mut storage = Storage::load_from_rdb(&name(), bytes, 0).expect("load");
    assert_eq!(
        storage.get_at(&b"a".to_vec(), 0),
        Some(Value::BulkString(b"b".to_vec()))
    );
}

#[test]
fn bad_file_type_is_rejected() {
    let bytes = snapshot(&[]);
    assert!(matches!(
        Storage::load_from_rdb(&b"dump.txt".to_vec(), bytes, 0),
        Err(RdbError::BadFileType)
    ));
}

#[test]
fn short_and_wrong_magic_are_rejected() {
    assert!(matches!(
        Storage::load_from_rdb(&name(), b"RED".to_vec(), 0),
        Err(RdbError::TooShort)
    ));
    assert!(matches!(
        Storage::load_from_rdb(&name(), b"NOPES0011\xff".to_vec(), 0),
        Err(RdbError::MissingMagic)
    ));
}

#[test]
fn truncated_record_is_rejected() {
    let mut bytes = Vec::new();
    bytes.extend_from_slice(b"REDIS0011");
    bytes.push(0xFB);
    bytes.push(1);
    bytes.push(0);
    bytes.push(0x00);
    bytes.push(5);
    bytes.extend_from_slice(b"ke");
    assert!(matches!(
        Storage::load_from_rdb(&name(), bytes, 0),
        Err(RdbError::TruncatedRecord)
    ));
    let unterminated = b"REDIS0011".to_vec();
    assert!(matches!(
        Storage::load_from_rdb(&name(), unterminated, 0),
        Err(RdbError::TruncatedRecord)
    ));
}

#[test]
fn unknown_value_type_is_rejected() {
    let mut bytes = Vec::new();
    bytes.extend_from_slice(b"REDIS0011");
    bytes.push(0xFB);
    bytes.push(1);
    bytes.push(0);
    bytes.push(0x07);
    bytes.push(1);
    bytes.push(b'k');
    bytes.push(1);
    bytes.push(b'v');
    bytes.push(0xFF);
    assert!(matches!(
        Storage::load_from_rdb(&name(), bytes, 0),
        Err(RdbError::UnknownValueType)
    ));
}

#[test]
fn is_valid_reports_shape() {
    assert!(matches!(
        RDBFile::is_valid(&b"RE".to_vec()),
        RDBValidationResult::TooShort
    ));
    assert!(matches!(
        RDBFile::is_valid(&b"WRONG!".to_vec()),
        RDBValidationResult::MissingRedisMagicString
    ));
    assert!(matches!(
        RDBFile::is_valid(&b"REDIS0011".to_vec()),
        RDBValidationResult::Valid
    ));
}

#[test]
fn import_data_merges_into_existing_keyspace() {
    let bytes = snapshot(&[record(None, b"x", b"new")]);
    let file = RDBFile::from_bytes(&name(), bytes, 0).expect("parse");
    let mut storage = Storage::new();
    storage.set(&b"x".to_vec(), Value::BulkString(b"old".to_vec()), None);
    storage.set(&b"y".to_vec(), Value::BulkString(b"kept".to_vec()), None);
    storage.import_data(file);
    assert_eq!(
        storage.get_at(&b"x".to_vec(), 0),
        Some(Value::BulkString(b"new".to_vec()))
    );
    assert_eq!(
        storage.get_at(&b"y".to_vec(), 0),
        Some(Value::BulkString(b"kept".to_vec()))
    );
}

#[test]
fn add_all_applies_entries_in_order() {
    let mut storage = Storage::new();
    let batch = vec![
        (b"k".to_vec(), DataContainer::create(Value::Integer(1), None)),
        (b"k".to_vec(), DataContainer::create(Value::Integer(2), None)),
    ];
    storage.add_all(batch);
    assert_eq!(storage.get_at(&b"k".to_vec(), 0), Some(Value::Integer(2)));
}
