use kvs::{u64_from_le_bytes, u64_to_le_bytes, Entry, TsaError};

#[test]
fn le64_round_trip() {
    for x in [0u64, 1, 255, 256, 0xdead_beef, u64::MAX] {
        let b = u64_to_le_bytes(x);
        assert_eq!(b.len(), 8);
        assert_eq!(u64_from_le_bytes(&b), x);
    }
}

#[test]
fn record_exact_bytes() {
    let e = Entry::Put { key: "ab".to_owned(), value: "xyz".to_owned() };
    let bytes = e.serialize();
    let mut expected = vec![2, 0, 0, 0, 0, 0, 0, 0, 3, 0, 0, 0, 0, 0, 0, 0];
    expected.extend_from_slice(b"ab");
    expected.extend_from_slice(b"xyz");
    assert_eq!(bytes, expected);
}

#[test]
fn tombstone_exact_bytes() {
    let e = Entry::Remove { key: "k".to_owned() };
    let bytes = e.serialize();
    let mut expected = vec![1, 0, 0, 0, 0, 0, 0, 0, 0, 0, 0, 0, 0, 0, 0, 0];
    expected.extend_from_slice(b"k");
    assert_eq!(bytes, expected);
}

#[test]
fn record_round_trip() -> Result<(), TsaError> {
    let e = Entry::Put { key: "sch\u{f6}n".to_owned(), value: "wert \u{2603}".to_owned() };
    let bytes = e.serialize();
    match Entry::deserialize(&bytes)? {
        Entry::Put { key, value } => {
            assert_eq!(key, "sch\u{f6}n");
            assert_eq!(value, "wert \u{2603}");
        }
        Entry::Remove { .. } => panic!("a set record decoded as a tombstone"),
    }
    Ok(())
}

#[test]
fn tombstone_round_trip() -> Result<(), TsaError> {
    let e = Entry::Remove { key: "gone".to_owned() };
    let bytes = e.serialize();
    match Entry::deserialize(&bytes)? {
        Entry::Remove { key } => assert_eq!(key, "gone"),
        Entry::Put { .. } => panic!("a tombstone decoded as a set record"),
    }
    Ok(())
}

#[test]
fn short_input_is_corrupt() {
    assert!(matches!(Entry::deserialize(&[1, 2, 3]), Err(TsaError::CorruptedLog)));
    // A header claiming more bytes than the input holds.
    let mut bytes = vec![5, 0, 0, 0, 0, 0, 0, 0, 0, 0, 0, 0, 0, 0, 0, 0];
    bytes.extend_from_slice(b"ab");
    assert!(matches!(Entry::deserialize(&bytes), Err(TsaError::CorruptedLog)));
}

#[test]
fn invalid_utf8_is_corrupt() {
    let mut bytes = vec![1, 0, 0, 0, 0, 0, 0, 0, 0, 0, 0, 0, 0, 0, 0, 0];
    bytes.push(0xff);
    assert!(matches!(Entry::deserialize(&bytes), Err(TsaError::CorruptedLog)));
}

#[test]
fn trailing_bytes_ignored() -> Result<(), TsaError> {
    let e = Entry::Put { key: "k".to_owned(), value: "v".to_owned() };
    let mut bytes = e.serialize();
    bytes.extend_from_slice(b"garbage after the record");
    match Entry::deserialize(&bytes)? {
        Entry::Put { key, value } => {
            assert_eq!(key, "k");
            assert_eq!(value, "v");
        }
        Entry::Remove { .. } => panic!("a set record decoded as a tombstone"),
    }
    Ok(())
}
