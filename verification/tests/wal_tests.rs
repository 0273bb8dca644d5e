use toywal::error::WalError;
use toywal::memtable::Memtable;
use toywal::wal::{new, WALSync, WAL};

/// A ready manager over an empty log, and the bytes written so far.
fn fresh_ready() -> (WAL, Vec<u8>) {
    let mut w = new(WALSync::Default);
    let mt = w.replay(&[]).unwrap();
    assert_eq!(mt.len(), 0);
    (w, Vec::new())
}

/// Writes one pair through the manager and appends the framed entry
/// to the in-memory log, as the owner of the file would append it.
fn append(w: &mut WAL, log: &mut Vec<u8>, key: &[u8], value: &[u8]) {
    assert!(w.is_ready());
    assert!(w.next_seq() < u32::MAX);
    assert!(key.len() <= 0xFFFF);
    assert!((value.len() as u64) <= 0xFFFF_FFFF);
    let entry = w.write(key, value).unwrap();
    log.extend_from_slice(&entry);
}

#[test]
fn empty_store_bootstrap() {
    let mut w = new(WALSync::Default);
    assert!(!w.is_ready());
    let mt = w.replay(&[]).unwrap();
    assert_eq!(mt.len(), 0);
    assert!(w.is_ready());
    assert_eq!(w.next_seq(), 0);
    assert_eq!(w.write_count(), 0);
}

#[test]
fn write_before_replay_fails() {
    let mut w = new(WALSync::Full);
    match w.write(b"k", b"v") {
        Err(e) => assert_eq!(e, WalError::BadWALState),
        Ok(_) => panic!("write before replay was accepted"),
    }
}

#[test]
fn reset_before_replay_fails() {
    let mut w = new(WALSync::Full);
    match w.reset() {
        Err(e) => assert_eq!(e, WalError::BadWALState),
        Ok(_) => panic!("reset before replay was accepted"),
    }
}

#[test]
fn replay_twice_fails() {
    let (mut w, log) = fresh_ready();
    match w.replay(&log) {
        Err(e) => assert_eq!(e, WalError::BadWALState),
        Ok(_) => panic!("second replay was accepted"),
    }
}

#[test]
fn sequence_monotonicity() {
    let (mut w, mut log) = fresh_ready();
    let n: u32 = 5;
    for i in 0..n {
        let key = format!("key{}", i);
        append(&mut w, &mut log, key.as_bytes(), b"value");
        assert_eq!(w.next_seq(), i + 1);
        assert_eq!(w.write_count(), i + 1);
    }
    let mut w2 = new(WALSync::Default);
    let mt = w2.replay(&log).unwrap();
    assert_eq!(mt.len(), n as usize);
    assert_eq!(w2.next_seq(), n);
    assert_eq!(w2.write_count(), n);
}

#[test]
fn last_writer_wins() {
    let (mut w, mut log) = fresh_ready();
    append(&mut w, &mut log, b"k", b"v1");
    append(&mut w, &mut log, b"k", b"v2");
    let mut w2 = new(WALSync::Default);
    let mt = w2.replay(&log).unwrap();
    assert_eq!(mt.len(), 1);
    assert_eq!(mt.get(b"k").unwrap(), &b"v2".to_vec());
    assert_eq!(w2.next_seq(), 2);
}

#[test]
fn crash_truncation_mid_value_detected() {
    let (mut w, mut log) = fresh_ready();
    append(&mut w, &mut log, b"foo", b"bar");
    append(&mut w, &mut log, b"baz", b"quux");
    // Cut inside the body of the last record.
    log.truncate(log.len() - 2);
    let mut w2 = new(WALSync::Default);
    match w2.replay(&log) {
        Err(e) => assert_eq!(e, WalError::TruncatedRecord),
        Ok(_) => panic!("a log cut mid-value was accepted"),
    }
    // Recovery failed, so the manager is still unopened.
    assert!(!w2.is_ready());
    assert_eq!(w2.next_seq(), 0);
}

#[test]
fn crash_truncation_mid_key_detected() {
    let (mut w, mut log) = fresh_ready();
    append(&mut w, &mut log, b"foo", b"bar");
    let first = log.len();
    append(&mut w, &mut log, b"longerkey", b"value");
    // Keep the last record's 22 header bytes and one key byte.
    log.truncate(first + 23);
    let mut w2 = new(WALSync::Default);
    match w2.replay(&log) {
        Err(e) => assert_eq!(e, WalError::TruncatedRecord),
        Ok(_) => panic!("a log cut mid-key was accepted"),
    }
}

#[test]
fn sequence_gap_detected() {
    let (mut w, mut log) = fresh_ready();
    append(&mut w, &mut log, b"a", b"1");
    let second = log.len();
    append(&mut w, &mut log, b"b", b"2");
    // Rewrite the second entry's stored sequence field (big-endian
    // bytes 1..5 of its envelope header) from 1 to 5.
    log[second + 4] = 5;
    let mut w2 = new(WALSync::Default);
    match w2.replay(&log) {
        Err(e) => assert_eq!(e, WalError::BadWALSeq { expected: 1, actual: 5 }),
        Ok(_) => panic!("a sequence gap was accepted"),
    }
}

#[test]
fn foreign_counter_detected() {
    // A log whose first entry does not start at 0 is refused.
    let (mut w, mut log) = fresh_ready();
    append(&mut w, &mut log, b"a", b"1");
    log[4] = 3;
    let mut w2 = new(WALSync::Default);
    match w2.replay(&log) {
        Err(e) => assert_eq!(e, WalError::BadWALSeq { expected: 0, actual: 3 }),
        Ok(_) => panic!("a log starting at sequence 3 was accepted"),
    }
}

#[test]
fn trailing_partial_header_is_clean_end() {
    let (mut w, mut log) = fresh_ready();
    append(&mut w, &mut log, b"k", b"v");
    // Fewer bytes than an envelope header after the last entry: the
    // clean end of the log.
    log.extend_from_slice(&[b'w', 0, 0]);
    let mut w2 = new(WALSync::Default);
    let mt = w2.replay(&log).unwrap();
    assert_eq!(mt.len(), 1);
    assert_eq!(w2.next_seq(), 1);
}

#[test]
fn trailing_garbage_with_bad_magic_is_fatal() {
    let (mut w, mut log) = fresh_ready();
    append(&mut w, &mut log, b"k", b"v");
    log.extend_from_slice(&[0, 0, 0, 0, 0, 0, 0]);
    let mut w2 = new(WALSync::Default);
    match w2.replay(&log) {
        Err(e) => assert_eq!(e, WalError::BadMagic),
        Ok(_) => panic!("trailing bytes with a wrong magic were accepted"),
    }
}

#[test]
fn reset_semantics() {
    let (mut w, mut log) = fresh_ready();
    append(&mut w, &mut log, b"k", b"v");
    assert_eq!(w.next_seq(), 1);
    w.reset().unwrap();
    assert!(w.is_ready());
    assert_eq!(w.next_seq(), 0);
    assert_eq!(w.write_count(), 0);
    // The owner of the file deletes it on reset; a fresh manager over
    // the now-empty log sees an empty store.
    log.clear();
    let mut w2 = new(WALSync::Default);
    let mt = w2.replay(&log).unwrap();
    assert_eq!(mt.len(), 0);
    assert_eq!(w2.next_seq(), 0);
    // Writing after a reset starts numbering over at 0.
    append(&mut w, &mut log, b"k2", b"v2");
    assert_eq!(w.next_seq(), 1);
}

#[test]
fn end_to_end_reopen() {
    let (mut w, mut log) = fresh_ready();
    append(&mut w, &mut log, b"foo", b"bar");
    append(&mut w, &mut log, b"baz", b"qux");
    // Drop the first manager (close) and reopen over the same bytes.
    drop(w);
    let mut w2 = new(WALSync::Default);
    let mt = w2.replay(&log).unwrap();
    assert_eq!(mt.len(), 2);
    assert_eq!(mt.key_at(0), &b"baz".to_vec());
    assert_eq!(mt.value_at(0), &b"qux".to_vec());
    assert_eq!(mt.key_at(1), &b"foo".to_vec());
    assert_eq!(mt.value_at(1), &b"bar".to_vec());
    assert_eq!(w2.next_seq(), 2);
}

#[test]
fn insert_and_readback() {
    // One write, replayed, read back through the recovered index.
    let (mut w, mut log) = fresh_ready();
    let k = "foo".to_string();
    let v = "the rain in spain falls mainly on the plain".to_string();
    append(&mut w, &mut log, k.as_bytes(), v.as_bytes());
    let mut w2 = new(WALSync::Default);
    let mt = w2.replay(&log).unwrap();
    let got = mt.get(k.as_bytes());
    assert_eq!(
        got.unwrap(),
        &v.into_bytes(),
        "Did not read back what we put in"
    );
}

#[test]
fn memtable_insert_get_and_order() {
    let mut mt = Memtable::new();
    mt.insert(b"pear".to_vec(), b"3".to_vec());
    mt.insert(b"apple".to_vec(), b"1".to_vec());
    mt.insert(b"banana".to_vec(), b"2".to_vec());
    assert_eq!(mt.len(), 3);
    assert_eq!(mt.key_at(0), &b"apple".to_vec());
    assert_eq!(mt.key_at(1), &b"banana".to_vec());
    assert_eq!(mt.key_at(2), &b"pear".to_vec());
    assert_eq!(mt.get(b"banana").unwrap(), &b"2".to_vec());
    assert!(mt.get(b"grape").is_none());
    mt.insert(b"banana".to_vec(), b"22".to_vec());
    assert_eq!(mt.len(), 3);
    assert_eq!(mt.get(b"banana").unwrap(), &b"22".to_vec());
    // A key that is a prefix of another sorts first.
    mt.insert(b"app".to_vec(), b"0".to_vec());
    assert_eq!(mt.key_at(0), &b"app".to_vec());
    assert_eq!(mt.key_at(1), &b"apple".to_vec());
    let entries = mt.into_entries();
    assert_eq!(entries.len(), 4);
    assert_eq!(entries[0].0, b"app".to_vec());
}

#[test]
fn write_returns_the_framed_entry() {
    let (mut w, _log) = fresh_ready();
    let entry = w.write(b"k", b"v").unwrap();
    assert_eq!(entry.len(), 22 + 1 + 1);
    assert_eq!(entry[0], b'w');
    // Sync policy is carried, not interpreted, by the library.
    assert_eq!(w.sync_policy(), WALSync::Default);
    let w_full = new(WALSync::Full);
    assert_eq!(w_full.sync_policy(), WALSync::Full);
}
