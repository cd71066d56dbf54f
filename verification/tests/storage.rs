use kvs::{check_engine, Engine, TsaError};

#[test]
fn fresh_dir_writes_marker() {
    match check_engine(None, Engine::Kvs) {
        Ok(Some(line)) => assert_eq!(line, "kvs"),
        _ => panic!("an unmarked directory must get a marker"),
    }
    match check_engine(None, Engine::Sled) {
        Ok(Some(line)) => assert_eq!(line, "sled"),
        _ => panic!("an unmarked directory must get a marker"),
    }
}

#[test]
fn matching_marker_proceeds() {
    assert!(matches!(check_engine(Some("kvs".to_owned()), Engine::Kvs), Ok(None)));
    // Surrounding whitespace in the marker file is ignored.
    assert!(matches!(check_engine(Some("kvs\n".to_owned()), Engine::Kvs), Ok(None)));
    assert!(matches!(check_engine(Some("  sled \r\n".to_owned()), Engine::Sled), Ok(None)));
}

#[test]
fn mismatched_marker_refuses() {
    // A directory written by the log engine refuses the tree engine.
    assert!(matches!(
        check_engine(Some("kvs".to_owned()), Engine::Sled),
        Err(TsaError::WrongEngine)
    ));
    assert!(matches!(
        check_engine(Some("sled".to_owned()), Engine::Kvs),
        Err(TsaError::WrongEngine)
    ));
    assert!(matches!(
        check_engine(Some("memory".to_owned()), Engine::Kvs),
        Err(TsaError::WrongEngine)
    ));
}

#[test]
fn engine_names_parse() {
    assert!(matches!(Engine::from_str("kvs"), Ok(Engine::Kvs)));
    assert!(matches!(Engine::from_str("KVS"), Ok(Engine::Kvs)));
    assert!(matches!(Engine::from_str("Sled"), Ok(Engine::Sled)));
    assert!(matches!(Engine::from_str("memory"), Ok(Engine::Memory)));
    assert!(matches!(Engine::from_str("bogus"), Err(TsaError::Protocol(_))));
    assert_eq!(Engine::Kvs.as_str(), "kvs");
    assert_eq!(Engine::Sled.as_str(), "sled");
    assert_eq!(Engine::Memory.as_str(), "memory");
}
