use kvs::{
    deserialize, handle_request, serialize, KvMemory, KvStore, Protocol, ProtocolTrait, Request,
    Response, TsaError,
};

#[test]
fn serialize_exact_frame() {
    let s = serialize("SET", &["key", "value"]);
    assert_eq!(s, "*3\r\n$3\r\nSET\r\n$3\r\nkey\r\n$5\r\nvalue\r\n");
    let s = serialize("OK", &[]);
    assert_eq!(s, "*1\r\n$2\r\nOK\r\n");
}

#[test]
fn deserialize_splits_fields() -> Result<(), TsaError> {
    let parts = deserialize(b"*3\r\n$3\r\nSET\r\n$3\r\nkey\r\n$5\r\nvalue\r\n")?;
    assert_eq!(parts, vec!["SET".to_owned(), "key".to_owned(), "value".to_owned()]);
    Ok(())
}

#[test]
fn deserialize_rejects_malformed() {
    assert!(matches!(deserialize(b""), Err(TsaError::Protocol(_))));
    assert!(matches!(deserialize(b"hello"), Err(TsaError::Protocol(_))));
    // Count says two fields, only one present.
    assert!(matches!(deserialize(b"*2\r\n$3\r\nGET\r\n"), Err(TsaError::Protocol(_))));
    // Length does not match the field.
    assert!(matches!(deserialize(b"*1\r\n$9\r\nGET\r\n"), Err(TsaError::Protocol(_))));
    // Trailing bytes after the frame.
    assert!(matches!(deserialize(b"*1\r\n$2\r\nOK\r\nextra"), Err(TsaError::Protocol(_))));
}

#[test]
fn request_round_trip() -> Result<(), TsaError> {
    let p = Protocol::build();
    let reqs = vec![
        Request::Get { key: "k".to_owned() },
        Request::Put { key: "k".to_owned(), value: "v".to_owned() },
        Request::Remove { key: "k".to_owned() },
    ];
    for req in reqs {
        let encoded = p.encode_request(&req);
        let back = p.decode_request(&encoded)?;
        match (&req, &back) {
            (Request::Get { key: a }, Request::Get { key: b }) => assert_eq!(a, b),
            (
                Request::Put { key: a, value: av },
                Request::Put { key: b, value: bv },
            ) => {
                assert_eq!(a, b);
                assert_eq!(av, bv);
            }
            (Request::Remove { key: a }, Request::Remove { key: b }) => assert_eq!(a, b),
            _ => panic!("request changed shape over the wire"),
        }
    }
    Ok(())
}

#[test]
fn request_with_line_breaks_in_value() -> Result<(), TsaError> {
    // Length-prefixed framing carries CRLF inside a field untouched.
    let p = Protocol::build();
    let req = Request::Put { key: "k".to_owned(), value: "line1\r\nline2".to_owned() };
    let encoded = p.encode_request(&req);
    match p.decode_request(&encoded)? {
        Request::Put { key, value } => {
            assert_eq!(key, "k");
            assert_eq!(value, "line1\r\nline2");
        }
        _ => panic!("request changed shape over the wire"),
    }
    Ok(())
}

#[test]
fn response_round_trip() -> Result<(), TsaError> {
    let p = Protocol::build();
    let cases = vec![
        Response::Value("v".to_owned()),
        Response::Done,
        Response::NotFound,
        Response::Error("boom".to_owned()),
    ];
    for res in cases {
        let encoded = p.encode_response(&res);
        let back = p.decode_response(&encoded)?;
        match (&res, &back) {
            (Response::Value(a), Response::Value(b)) => assert_eq!(a, b),
            (Response::Done, Response::Done) => {}
            (Response::NotFound, Response::NotFound) => {}
            (Response::Error(a), Response::Error(b)) => assert_eq!(a, b),
            _ => panic!("response changed shape over the wire"),
        }
    }
    Ok(())
}

#[test]
fn decode_request_rejects_unknown_shapes() {
    let p = Protocol::build();
    let data = serialize("FLUSH", &["now"]).into_bytes();
    assert!(matches!(p.decode_request(&data), Err(TsaError::Protocol(_))));
    let data = serialize("GET", &["a", "b"]).into_bytes();
    assert!(matches!(p.decode_request(&data), Err(TsaError::Protocol(_))));
}

#[test]
fn dispatch_against_memory_engine() {
    let mut store = KvMemory::new();
    let r = handle_request(
        &mut store,
        Request::Put { key: "foo".to_owned(), value: "bar".to_owned() },
    );
    assert!(matches!(r, Response::Done));
    match handle_request(&mut store, Request::Get { key: "foo".to_owned() }) {
        Response::Value(v) => assert_eq!(v, "bar"),
        _ => panic!("expected the stored value"),
    }
    let r = handle_request(&mut store, Request::Remove { key: "foo".to_owned() });
    assert!(matches!(r, Response::Done));
    let r = handle_request(&mut store, Request::Get { key: "foo".to_owned() });
    assert!(matches!(r, Response::NotFound));
    let r = handle_request(&mut store, Request::Remove { key: "foo".to_owned() });
    assert!(matches!(r, Response::NotFound));
}

#[test]
fn dispatch_against_log_engine() {
    let mut store = KvStore::open(Vec::new());
    let r = handle_request(
        &mut store,
        Request::Put { key: "foo".to_owned(), value: "bar".to_owned() },
    );
    assert!(matches!(r, Response::Done));
    match handle_request(&mut store, Request::Get { key: "foo".to_owned() }) {
        Response::Value(v) => assert_eq!(v, "bar"),
        _ => panic!("expected the stored value"),
    }
    // An empty value is a user error, answered on the wire, not stored.
    let r = handle_request(
        &mut store,
        Request::Put { key: "foo".to_owned(), value: String::new() },
    );
    assert!(matches!(r, Response::Error(_)));
    match handle_request(&mut store, Request::Get { key: "foo".to_owned() }) {
        Response::Value(v) => assert_eq!(v, "bar"),
        _ => panic!("the rejected write must not change the value"),
    }
}
