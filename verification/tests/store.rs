use kvs::{FileOp, KvStore, Segment, SegmentStatus, TsaError};

/// Mirrors the store's journal onto an in-memory "directory", as the shell
/// mirrors it onto real files.
fn apply_file_ops(disk: &mut Vec<(u64, Vec<u8>)>, ops: Vec<FileOp>) {
    for op in ops {
        match op {
            FileOp::Create { file_id } => {
                disk.push((file_id, Vec::new()));
            }
            FileOp::Append { file_id, mut bytes } => {
                let entry = disk.iter_mut().find(|e| e.0 == file_id).expect("append to a missing file");
                entry.1.append(&mut bytes);
            }
            FileOp::Truncate { file_id, len } => {
                let entry = disk.iter_mut().find(|e| e.0 == file_id).expect("truncate of a missing file");
                entry.1.truncate(len as usize);
            }
            FileOp::Delete { file_id } => {
                disk.retain(|e| e.0 != file_id);
            }
        }
    }
}

/// Opens a store over the current "directory" contents, sorted by file id.
fn reopen(disk: &Vec<(u64, Vec<u8>)>) -> KvStore {
    let mut sorted = disk.clone();
    sorted.sort_by_key(|e| e.0);
    let mut files = Vec::new();
    for (fid, data) in sorted {
        files.push(Segment::open(fid, data, SegmentStatus::Archived));
    }
    KvStore::open(files)
}

#[test]
fn fresh_dir_set_get() -> Result<(), TsaError> {
    let mut store = KvStore::open(Vec::new());
    store.set("k".to_owned(), "v".to_owned())?;
    assert_eq!(store.get("k".to_owned())?, Some("v".to_owned()));
    Ok(())
}

#[test]
fn overwrite_survives_reopen() -> Result<(), TsaError> {
    let mut disk: Vec<(u64, Vec<u8>)> = Vec::new();
    let mut store = KvStore::open(Vec::new());
    apply_file_ops(&mut disk, store.take_journal());
    store.set("k".to_owned(), "v1".to_owned())?;
    store.set("k".to_owned(), "v2".to_owned())?;
    apply_file_ops(&mut disk, store.take_journal());
    let reopened = reopen(&disk);
    assert_eq!(reopened.get("k".to_owned())?, Some("v2".to_owned()));
    Ok(())
}

#[test]
fn remove_then_remove_again() -> Result<(), TsaError> {
    let mut store = KvStore::open(Vec::new());
    store.set("k".to_owned(), "v".to_owned())?;
    store.remove("k".to_owned())?;
    assert_eq!(store.get("k".to_owned())?, None);
    assert!(matches!(store.remove("k".to_owned()), Err(TsaError::KeyNotFound)));
    Ok(())
}

#[test]
fn removal_survives_reopen() -> Result<(), TsaError> {
    let mut disk: Vec<(u64, Vec<u8>)> = Vec::new();
    let mut store = KvStore::open(Vec::new());
    apply_file_ops(&mut disk, store.take_journal());
    store.set("a".to_owned(), "1".to_owned())?;
    store.set("b".to_owned(), "2".to_owned())?;
    store.remove("a".to_owned())?;
    apply_file_ops(&mut disk, store.take_journal());
    let reopened = reopen(&disk);
    assert_eq!(reopened.get("a".to_owned())?, None);
    assert_eq!(reopened.get("b".to_owned())?, Some("2".to_owned()));
    Ok(())
}

#[test]
fn empty_value_rejected_writes_nothing() -> Result<(), TsaError> {
    let mut store = KvStore::open(Vec::new());
    let before = store.total_size();
    assert!(matches!(store.set("k".to_owned(), String::new()), Err(TsaError::EmptyValue)));
    assert_eq!(store.total_size(), before);
    assert_eq!(store.get("k".to_owned())?, None);
    Ok(())
}

#[test]
fn remove_absent_writes_nothing() -> Result<(), TsaError> {
    let mut store = KvStore::open(Vec::new());
    store.set("other".to_owned(), "v".to_owned())?;
    let before = store.total_size();
    assert!(matches!(store.remove("absent".to_owned()), Err(TsaError::KeyNotFound)));
    assert_eq!(store.total_size(), before);
    Ok(())
}

#[test]
fn rollover_at_exact_cap() -> Result<(), TsaError> {
    // A record of key "ab" and a 30-byte value is exactly 48 bytes.
    let max = 48;
    let mut store = KvStore::open_with_limits(Vec::new(), max, 1 << 30);
    let first = store.active_file_id();
    store.set("ab".to_owned(), "x".repeat(30))?;
    // At exactly the cap: no rollover yet.
    assert_eq!(store.active_file_id(), first);
    assert_eq!(store.active_segment_size(), max);
    // The next write leaves the segment over the cap and rolls it.
    store.set("cd".to_owned(), "y".repeat(30))?;
    assert_eq!(store.active_file_id(), first + 1);
    assert_eq!(store.active_segment_size(), 0);
    Ok(())
}

#[test]
fn compaction_reclaims_overwritten_space() -> Result<(), TsaError> {
    // 60 records of 322 bytes each: 19320 live bytes, above the trigger.
    let threshold = 16384;
    let mut store = KvStore::open_with_limits(Vec::new(), 8192, threshold);
    let mut keys = Vec::new();
    for i in 0..60 {
        keys.push(format!("key{:03}", i));
    }
    for k in &keys {
        store.set(k.clone(), "a".repeat(300))?;
    }
    let after_first_pass = store.total_size();
    for k in &keys {
        store.set(k.clone(), "b".repeat(300))?;
    }
    // Every key was written twice, yet compaction keeps the log at exactly
    // the live bytes: one 322-byte record per key.
    assert_eq!(store.total_size(), 60 * 322);
    assert!(store.total_size() <= after_first_pass);
    assert_eq!(store.stale_count(), 0);
    for k in &keys {
        assert_eq!(store.get(k.clone())?, Some("b".repeat(300)));
    }
    Ok(())
}

#[test]
fn compaction_twice_changes_nothing() -> Result<(), TsaError> {
    // Small enough that every write beyond the trigger compacts.
    let mut store = KvStore::open_with_limits(Vec::new(), 4096, 64);
    store.set("k1".to_owned(), "v1".to_owned())?;
    store.set("k2".to_owned(), "v2".to_owned())?;
    store.set("k3".to_owned(), "v3".to_owned())?;
    let size_after = store.total_size();
    let keys_after = store.key_count();
    // One more write triggers another full compaction; the visible state,
    // the key count and the stale counter are unchanged by it.
    store.set("k3".to_owned(), "v3".to_owned())?;
    assert_eq!(store.total_size(), size_after);
    assert_eq!(store.key_count(), keys_after);
    assert_eq!(store.stale_count(), 0);
    assert_eq!(store.get("k1".to_owned())?, Some("v1".to_owned()));
    assert_eq!(store.get("k2".to_owned())?, Some("v2".to_owned()));
    assert_eq!(store.get("k3".to_owned())?, Some("v3".to_owned()));
    Ok(())
}

#[test]
fn synced_write_visible_after_restart() -> Result<(), TsaError> {
    let mut disk: Vec<(u64, Vec<u8>)> = Vec::new();
    let mut store = KvStore::open(Vec::new());
    apply_file_ops(&mut disk, store.take_journal());
    store.set("durable".to_owned(), "yes".to_owned())?;
    // The append was handed to the directory and synced; the reply may
    // have been lost, but a restart sees the write.
    apply_file_ops(&mut disk, store.take_journal());
    drop(store);
    let reopened = reopen(&disk);
    assert_eq!(reopened.get("durable".to_owned())?, Some("yes".to_owned()));
    Ok(())
}

#[test]
fn torn_tail_is_truncated() -> Result<(), TsaError> {
    let mut disk: Vec<(u64, Vec<u8>)> = Vec::new();
    let mut store = KvStore::open(Vec::new());
    apply_file_ops(&mut disk, store.take_journal());
    store.set("whole".to_owned(), "record".to_owned())?;
    apply_file_ops(&mut disk, store.take_journal());
    // A torn append: only half a header reached the file.
    disk[0].1.extend_from_slice(&[7, 0, 0]);
    let mut reopened = reopen(&disk);
    assert_eq!(reopened.get("whole".to_owned())?, Some("record".to_owned()));
    // Recovery truncated the tail, and says so in its journal.
    let ops = reopened.take_journal();
    assert!(ops.iter().any(|op| matches!(op, FileOp::Truncate { .. })));
    Ok(())
}

#[test]
fn disjoint_keys_all_readable() -> Result<(), TsaError> {
    let mut store = KvStore::open(Vec::new());
    for i in 0..25 {
        store.set(format!("client{}", i), format!("payload{}", i))?;
    }
    for i in 0..25 {
        assert_eq!(store.get(format!("client{}", i))?, Some(format!("payload{}", i)));
    }
    Ok(())
}

#[test]
fn same_key_last_write_wins_consistently() -> Result<(), TsaError> {
    let mut store = KvStore::open(Vec::new());
    for i in 0..10 {
        store.set("contended".to_owned(), format!("w{}", i))?;
    }
    let first_read = store.get("contended".to_owned())?;
    assert_eq!(first_read, Some("w9".to_owned()));
    // Repeated reads keep returning the same chosen value.
    assert_eq!(store.get("contended".to_owned())?, first_read);
    assert_eq!(store.get("contended".to_owned())?, first_read);
    Ok(())
}
