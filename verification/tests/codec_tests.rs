use toywal::bytes::{push_u16_be, push_u32_be, read_u16_be, read_u32_be};
use toywal::error::WalError;
use toywal::kvrecord::{KVRecord, WriteKVRecord, MAGIC, OP_SET};
use toywal::wal::WALRecord;

#[test]
fn be16_roundtrip_samples() {
    for x in [0u16, 1, 255, 256, 0x1234, 0xFFFF] {
        let mut buf: Vec<u8> = Vec::new();
        push_u16_be(&mut buf, x);
        assert_eq!(buf.len(), 2);
        assert_eq!(read_u16_be(&buf, 0), x);
    }
}

#[test]
fn be32_roundtrip_samples() {
    for x in [0u32, 1, 255, 256, 0x12345678, 0xFFFF_FFFF] {
        let mut buf: Vec<u8> = Vec::new();
        push_u32_be(&mut buf, x);
        assert_eq!(buf.len(), 4);
        assert_eq!(read_u32_be(&buf, 0), x);
    }
}

#[test]
fn be32_is_big_endian() {
    let mut buf: Vec<u8> = Vec::new();
    push_u32_be(&mut buf, 0x01020304);
    assert_eq!(buf, vec![1u8, 2, 3, 4]);
}

#[test]
fn serialize_exact_bytes() {
    let rec = WriteKVRecord { seq: 258, op: OP_SET, key: b"ab", value: b"xyz" };
    let buf = rec.serialize();
    let expected: Vec<u8> = vec![
        MAGIC, // magic
        0, 0, 1, 2, // seq 258 big-endian
        OP_SET, // op
        0, 2, // keylen
        0, 0, 0, 3, // valuelen
        0, 0, 0, 0, // pad
        b'a', b'b', // key
        b'x', b'y', b'z', // value
    ];
    assert_eq!(buf, expected);
}

#[test]
fn kv_record_roundtrip() {
    let rec = WriteKVRecord { seq: 7, op: OP_SET, key: b"key", value: b"value" };
    let buf = rec.serialize();
    let got = KVRecord::read_one(&buf, 0).unwrap().unwrap();
    assert_eq!(got.0.op, OP_SET);
    assert_eq!(got.0.key, b"key".to_vec());
    assert_eq!(got.0.value, b"value".to_vec());
    assert_eq!(got.1, buf.len());
}

#[test]
fn kv_record_roundtrip_empty_key_and_value() {
    let rec = WriteKVRecord { seq: 0, op: OP_SET, key: b"", value: b"" };
    let buf = rec.serialize();
    assert_eq!(buf.len(), 16);
    let got = KVRecord::read_one(&buf, 0).unwrap().unwrap();
    assert_eq!(got.0.key.len(), 0);
    assert_eq!(got.0.value.len(), 0);
    assert_eq!(got.1, 16);
}

#[test]
fn kv_record_roundtrip_largest_key() {
    let key = vec![b'k'; 65535];
    let value = vec![b'v'; 100_000];
    let rec = WriteKVRecord { seq: 1, op: OP_SET, key: &key, value: &value };
    let buf = rec.serialize();
    let got = KVRecord::read_one(&buf, 0).unwrap().unwrap();
    assert_eq!(got.0.key, key);
    assert_eq!(got.0.value, value);
    assert_eq!(got.1, 16 + 65535 + 100_000);
}

#[test]
fn wal_record_exact_bytes() {
    let mut buf: Vec<u8> = Vec::new();
    WALRecord::write_one(&mut buf, 258, b"ab", b"xyz");
    let expected: Vec<u8> = vec![
        MAGIC, // envelope magic
        0, 0, 1, 2, // envelope seq 258 big-endian
        OP_SET, // envelope op
        MAGIC, // codec magic
        0, 0, 1, 2, // codec seq
        OP_SET, // codec op
        0, 2, // keylen
        0, 0, 0, 3, // valuelen
        0, 0, 0, 0, // pad
        b'a', b'b', // key
        b'x', b'y', b'z', // value
    ];
    assert_eq!(buf, expected);
}

#[test]
fn wal_record_roundtrip() {
    let mut buf: Vec<u8> = Vec::new();
    WALRecord::write_one(&mut buf, 42, b"the key", b"the value");
    let got = WALRecord::read_one(&buf, 0).unwrap().unwrap();
    assert_eq!(got.0.seq, 42);
    assert_eq!(got.0.op, OP_SET);
    assert_eq!(got.0.key, b"the key".to_vec());
    assert_eq!(got.0.value, b"the value".to_vec());
    assert_eq!(got.1, buf.len());
}

#[test]
fn wal_record_appends_after_existing_bytes() {
    let mut buf: Vec<u8> = vec![9, 9, 9];
    WALRecord::write_one(&mut buf, 0, b"k", b"v");
    assert_eq!(&buf[..3], &[9, 9, 9]);
    let got = WALRecord::read_one(&buf, 3).unwrap().unwrap();
    assert_eq!(got.0.key, b"k".to_vec());
    assert_eq!(got.1, buf.len());
}

#[test]
fn short_header_is_clean_end() {
    // Fewer bytes than an envelope header: clean end of log.
    let buf = vec![MAGIC, 0, 0];
    assert!(WALRecord::read_one(&buf, 0).unwrap().is_none());
    // A full envelope header whose codec header is short: clean end too.
    let mut buf2: Vec<u8> = Vec::new();
    WALRecord::write_one(&mut buf2, 0, b"k", b"v");
    buf2.truncate(10);
    assert!(WALRecord::read_one(&buf2, 0).unwrap().is_none());
}

#[test]
fn bad_envelope_magic_is_fatal() {
    let mut buf: Vec<u8> = Vec::new();
    WALRecord::write_one(&mut buf, 0, b"k", b"v");
    buf[0] = b'x';
    match WALRecord::read_one(&buf, 0) {
        Err(e) => assert_eq!(e, WalError::BadMagic),
        Ok(_) => panic!("corrupt magic byte was accepted"),
    }
}

#[test]
fn bad_codec_magic_is_fatal() {
    let mut buf: Vec<u8> = Vec::new();
    WALRecord::write_one(&mut buf, 0, b"k", b"v");
    buf[6] = b'x';
    match WALRecord::read_one(&buf, 0) {
        Err(e) => assert_eq!(e, WalError::BadMagic),
        Ok(_) => panic!("corrupt codec magic byte was accepted"),
    }
}

#[test]
fn bad_op_is_fatal() {
    let mut buf: Vec<u8> = Vec::new();
    WALRecord::write_one(&mut buf, 0, b"k", b"v");
    buf[11] = 2;
    match WALRecord::read_one(&buf, 0) {
        Err(e) => assert_eq!(e, WalError::BadOp),
        Ok(_) => panic!("unknown operation tag was accepted"),
    }
}

#[test]
fn bad_pad_is_fatal() {
    let mut buf: Vec<u8> = Vec::new();
    WALRecord::write_one(&mut buf, 0, b"k", b"v");
    buf[20] = 1;
    match WALRecord::read_one(&buf, 0) {
        Err(e) => assert_eq!(e, WalError::BadPad),
        Ok(_) => panic!("non-zero padding was accepted"),
    }
}

#[test]
fn truncated_body_is_fatal() {
    let mut buf: Vec<u8> = Vec::new();
    WALRecord::write_one(&mut buf, 0, b"key", b"value");
    buf.truncate(buf.len() - 1);
    match WALRecord::read_one(&buf, 0) {
        Err(e) => assert_eq!(e, WalError::TruncatedRecord),
        Ok(_) => panic!("record cut mid-value was accepted"),
    }
}
