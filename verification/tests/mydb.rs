use mydb::store::Store;
use mydb::Error;

#[test]
fn test_basic() {
    let mut db = Store::open(Vec::new()).unwrap();

    assert_eq!(db.get("unknown_key").unwrap(), None);

    db.set("hello", "world").unwrap();
    assert_eq!(db.get("hello").unwrap(), Some("world".to_string()));

    db.set("hello", "mars").unwrap();
    assert_eq!(db.get("hello").unwrap(), Some("mars".to_string()));

    db.set("foo", "bar").unwrap();
    assert_eq!(db.get("foo").unwrap(), Some("bar".to_string()));
}

#[test]
fn test_load() {
    let mut db = Store::open(Vec::new()).unwrap();
    db.set("hello", "world").unwrap();
    db.set("foo", "bar").unwrap();
    db.set("bar", "foo").unwrap();
    db.set("hello", "mars").unwrap();
    let log = db.log.clone();
    drop(db);

    let db = Store::open(log).unwrap();
    assert_eq!(db.get("foo").unwrap(), Some("bar".to_string()));
    assert_eq!(db.get("bar").unwrap(), Some("foo".to_string()));
    assert_eq!(db.get("hello").unwrap(), Some("mars".to_string()));
}

#[test]
fn test_empty_key_value() {
    let mut db = Store::open(Vec::new()).unwrap();
    db.set("", "").unwrap();
    assert_eq!(db.get("").unwrap(), Some("".to_string()));
}

#[test]
fn test_fresh_store() {
    let db = Store::open(Vec::new()).unwrap();
    assert_eq!(db.get("anything").unwrap(), None);
    assert_eq!(db.get("").unwrap(), None);
}

#[test]
fn test_log_retains_overwritten_records() {
    let mut db = Store::open(Vec::new()).unwrap();
    let first = db.set("k", "v1").unwrap();
    let second = db.set("k", "v2").unwrap();
    // Both records stay in the log; only the second is reachable.
    assert_eq!(db.log.len(), first.len() + second.len());
    assert_eq!(db.get("k").unwrap(), Some("v2".to_string()));
}

#[test]
fn test_set_returns_appended_bytes() {
    let mut db = Store::open(Vec::new()).unwrap();
    let bytes = db.set("key", "value").unwrap();
    assert_eq!(db.log, bytes);
    // A store opened over exactly those bytes holds the same data.
    let db2 = Store::open(bytes).unwrap();
    assert_eq!(db2.get("key").unwrap(), Some("value".to_string()));
}

#[test]
fn test_get_corrupt_value() {
    let mut db = Store::open(Vec::new()).unwrap();
    db.set("k", "ok").unwrap();
    let mut log = db.log.clone();
    let n = log.len();
    log[n - 1] = 0xFF;
    // The index rebuild never reads value bytes, so the open succeeds;
    // fetching the record then reports the corruption as an error, not as
    // a missing key.
    let db2 = Store::open(log).unwrap();
    assert!(matches!(db2.get("k"), Err(Error::DecodeError(_))));
}

#[test]
fn test_open_truncated_log() {
    // A log ending mid-record is an I/O error (unexpected end of file),
    // not a decode error.
    let mut db = Store::open(Vec::new()).unwrap();
    db.set("key", "value").unwrap();
    let mut log = db.log.clone();
    log.pop();
    assert!(matches!(Store::open(log), Err(Error::IoError(_))));

    // Fewer bytes than one header.
    let short = vec![1u8, 2, 3];
    assert!(matches!(Store::open(short), Err(Error::IoError(_))));
}

#[test]
fn test_open_bad_key_utf8() {
    // A whole record whose key bytes are not UTF-8 is a decode error.
    let mut db = Store::open(Vec::new()).unwrap();
    db.set("k", "v").unwrap();
    let mut log = db.log.clone();
    log[12] = 0xFF;
    assert!(matches!(Store::open(log), Err(Error::DecodeError(_))));
}

#[test]
fn test_set_at_matches_encode() {
    // The bytes set_at appends are exactly the record's encoding for the
    // same timestamp, key and value.
    let mut db = Store::open(Vec::new()).unwrap();
    let bytes = db.set_at(42, "key", "value").unwrap();
    let kv = mydb::KeyValue::new(42, "key".to_string(), "value".to_string()).unwrap();
    assert_eq!(bytes, kv.encode());
    assert_eq!(db.get("key").unwrap(), Some("value".to_string()));
}
