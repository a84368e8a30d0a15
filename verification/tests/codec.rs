use mydb::codec::{Header, KeyValue};
use mydb::Error;
use rand::distributions::{Alphanumeric, DistString};
use rand::random;

fn assert_header_encode(header: Header) {
    let encoded = header.encode();
    let decoded = Header::decode(&encoded).unwrap();
    assert_eq!(header, decoded);
}

fn assert_keyvalue_encode(kv: KeyValue) {
    let encoded = kv.encode();
    let decoded = KeyValue::decode(&encoded).unwrap();
    assert_eq!(kv, decoded);
}

#[test]
fn test_header() {
    let headers = [
        Header {
            timestamp: 10,
            key_size: 10,
            value_size: 10,
        },
        Header {
            timestamp: 0,
            key_size: 0,
            value_size: 0,
        },
        Header {
            timestamp: 10000,
            key_size: 10000,
            value_size: 10000,
        },
    ];

    for header in headers {
        assert_header_encode(header);
    }
}

#[test]
fn test_header_random() {
    for _ in 0..100 {
        let header = Header {
            timestamp: random(),
            key_size: random(),
            value_size: random(),
        };
        assert_header_encode(header);
    }
}

#[test]
fn test_keyvalue() {
    let kvs = [
        KeyValue::new(10, "hello".to_string(), "world".to_string()).unwrap(),
        KeyValue::new(0, "".to_string(), "".to_string()).unwrap(),
    ];

    for kv in kvs {
        assert_keyvalue_encode(kv);
    }
}

#[test]
fn test_keyvalue_random() {
    for _ in 0..100 {
        let key_chars = random::<usize>() % (1 << 10);
        let value_chars = random::<usize>() % (1 << 10);

        let key = Alphanumeric.sample_string(&mut rand::thread_rng(), key_chars);
        let value = Alphanumeric.sample_string(&mut rand::thread_rng(), value_chars);

        let kv = KeyValue::new(random(), key, value).unwrap();
        assert_keyvalue_encode(kv);
    }
}

#[test]
fn test_keyvalue_multibyte() {
    // Keys and values whose UTF-8 encodings use two, three and four bytes
    // per character: the decoder must give back the same text, not the
    // raw bytes reinterpreted.
    let kv = KeyValue::new(3, "cl\u{e9}".to_string(), "\u{65e5}\u{8a18} \u{1f5dd}".to_string())
        .unwrap();
    let encoded = kv.encode();
    let decoded = KeyValue::decode(&encoded).unwrap();
    assert_eq!(kv, decoded);
    assert_eq!(decoded.value, "\u{65e5}\u{8a18} \u{1f5dd}");
}

#[test]
fn test_header_wrong_size() {
    assert!(matches!(
        Header::decode(&[0u8; 11]),
        Err(Error::DecodeError(_))
    ));
    assert!(matches!(
        Header::decode(&[0u8; 13]),
        Err(Error::DecodeError(_))
    ));
    assert!(matches!(Header::decode(&[0u8; 0]), Err(Error::DecodeError(_))));
    assert!(Header::decode(&[0u8; 12]).is_ok());
}

#[test]
fn test_record_wrong_size() {
    // Shorter than a header.
    assert!(matches!(
        KeyValue::decode(&[0u8; 11]),
        Err(Error::DecodeError(_))
    ));
    // Total length differs from what the header announces, in both
    // directions.
    let kv = KeyValue::new(7, "ab".to_string(), "cde".to_string()).unwrap();
    let mut encoded = kv.encode();
    encoded.push(0);
    assert!(matches!(
        KeyValue::decode(&encoded),
        Err(Error::DecodeError(_))
    ));
    let shorter = &encoded[..encoded.len() - 2];
    assert!(matches!(
        KeyValue::decode(shorter),
        Err(Error::DecodeError(_))
    ));
}

#[test]
fn test_record_invalid_utf8() {
    let kv = KeyValue::new(1, "k".to_string(), "v".to_string()).unwrap();
    let mut encoded = kv.encode();
    // Overwrite the value byte with one that no UTF-8 text contains.
    let n = encoded.len();
    encoded[n - 1] = 0xFF;
    assert!(matches!(
        KeyValue::decode(&encoded),
        Err(Error::DecodeError(_))
    ));
    // The same corruption in the key byte.
    let m = n - 2;
    let mut encoded2 = kv.encode();
    encoded2[m] = 0xFF;
    assert!(matches!(
        KeyValue::decode(&encoded2),
        Err(Error::DecodeError(_))
    ));
}

#[test]
fn test_invalid_utf8_message_carries_cause() {
    // The decode error's diagnostic carries the underlying UTF-8 error's
    // message, not just a fixed text.
    let kv = KeyValue::new(1, "k".to_string(), "v".to_string()).unwrap();
    let mut encoded = kv.encode();
    let n = encoded.len();
    encoded[n - 1] = 0xFF;
    match KeyValue::decode(&encoded) {
        Err(Error::DecodeError(msg)) => {
            let prefix = "unable to decode utf-8: ";
            assert!(msg.starts_with(prefix));
            assert!(msg.len() > prefix.len());
        }
        other => panic!("expected a decode error, got {:?}", other),
    }
}
