use bitcask::data::log_record::{
    decode_log_record, decode_log_record_pos, decode_record_type, max_log_record_header_size,
    LogRecord, LogRecordPos, LogRecordType,
};
use bitcask::error::Errors;

fn record(key: &str, value: &str, rec_type: LogRecordType) -> LogRecord {
    LogRecord {
        key: key.as_bytes().to_vec(),
        value: value.as_bytes().to_vec(),
        rec_type,
    }
}

#[test]
fn test_log_record_encode_and_crc() {
    let rec1 = LogRecord {
        key: "name".as_bytes().to_vec(),
        value: "bitcask-rs".as_bytes().to_vec(),
        rec_type: LogRecordType::NORMAL,
    };
    let enc1 = rec1.encode();
    assert!(enc1.len() > 5);
    assert_eq!(1020360578, rec1.get_crc());

    let rec2 = LogRecord {
        key: "name".as_bytes().to_vec(),
        value: Default::default(),
        rec_type: LogRecordType::NORMAL,
    };
    let enc2 = rec2.encode();
    assert!(enc2.len() > 5);
    assert_eq!(3756865478, rec2.get_crc());

    let rec3 = LogRecord {
        key: "name".as_bytes().to_vec(),
        value: "bitcask-rs".as_bytes().to_vec(),
        rec_type: LogRecordType::DELETED,
    };
    let enc3 = rec3.encode();
    assert!(enc3.len() > 5);
    assert_eq!(1867197446, rec3.get_crc());
}

#[test]
fn encode_lays_out_header_payload_and_big_endian_crc() {
    let rec = record("name", "bitcask-rs", LogRecordType::NORMAL);
    let mut expected = vec![1u8, 4, 10];
    expected.extend_from_slice(b"name");
    expected.extend_from_slice(b"bitcask-rs");
    expected.extend_from_slice(&1020360578u32.to_be_bytes());
    assert_eq!(rec.encode(), expected);

    let tomb = record("name", "", LogRecordType::DELETED);
    let enc = tomb.encode();
    assert_eq!(enc[0], 2);
    assert_eq!(enc.len(), 1 + 1 + 1 + 4 + 4);
}

#[test]
fn encode_writes_multi_byte_lengths() {
    let value = vec![7u8; 300];
    let rec = LogRecord { key: b"k".to_vec(), value: value.clone(), rec_type: LogRecordType::NORMAL };
    let enc = rec.encode();
    assert_eq!(&enc[0..5], &[1u8, 1, 0xac, 0x02, b'k']);
    assert_eq!(enc.len(), 1 + 1 + 2 + 1 + 300 + 4);
}

#[test]
fn decode_returns_the_encoded_record() {
    for (k, v, t) in [
        ("name", "bitcask-rs", LogRecordType::NORMAL),
        ("name", "", LogRecordType::NORMAL),
        ("name", "bitcask-rs", LogRecordType::DELETED),
        ("txn", "", LogRecordType::TXNFINISHED),
    ] {
        let rec = record(k, v, t);
        let mut buf = rec.encode();
        let size = buf.len();
        buf.extend_from_slice(b"trailing bytes");
        let read = decode_log_record(&buf).ok().unwrap();
        assert_eq!(read.size, size);
        assert_eq!(read.record.key, k.as_bytes().to_vec());
        assert_eq!(read.record.value, v.as_bytes().to_vec());
        assert_eq!(read.record.rec_type, t);
    }
}

#[test]
fn decode_of_empty_buffer_is_end_of_file() {
    assert_eq!(decode_log_record(&[]).err(), Some(Errors::ReadDataFileEOF));
}

#[test]
fn decode_of_cut_record_fails() {
    let enc = record("name", "bitcask-rs", LogRecordType::NORMAL).encode();
    for cut in 1..enc.len() {
        let r = decode_log_record(&enc[..cut]);
        let e = r.err().unwrap();
        assert!(e == Errors::ReadDataFileEOF || e == Errors::CorruptRecord);
    }
    assert_eq!(decode_log_record(&enc[..10]).err(), Some(Errors::ReadDataFileEOF));
}

#[test]
fn decode_rejects_bad_tag_and_bad_checksum() {
    let mut enc = record("name", "bitcask-rs", LogRecordType::NORMAL).encode();
    let mut bad_tag = enc.clone();
    bad_tag[0] = 9;
    assert_eq!(decode_log_record(&bad_tag).err(), Some(Errors::CorruptRecord));
    let last = enc.len() - 1;
    enc[last] ^= 0xff;
    assert_eq!(decode_log_record(&enc).err(), Some(Errors::CorruptRecord));
}

#[test]
fn record_type_tags() {
    assert_eq!(decode_record_type(1), Ok(LogRecordType::NORMAL));
    assert_eq!(decode_record_type(2), Ok(LogRecordType::DELETED));
    assert_eq!(decode_record_type(3), Ok(LogRecordType::TXNFINISHED));
    assert_eq!(decode_record_type(0), Err(Errors::CorruptRecord));
    assert_eq!(decode_record_type(4), Err(Errors::CorruptRecord));
    assert_eq!(LogRecordType::DELETED.to_tag(), 2);
}

#[test]
fn record_pos_round_trip() {
    let pos = LogRecordPos { file_id: 7, offset: 300, size: 11 };
    let enc = pos.encode();
    assert_eq!(enc, vec![7u8, 0xac, 0x02, 11]);
    assert_eq!(decode_log_record_pos(enc), Some(pos));

    let big = LogRecordPos { file_id: u32::MAX, offset: u64::MAX, size: u32::MAX };
    let enc = big.encode();
    assert_eq!(enc.len(), 5 + 10 + 5);
    assert_eq!(decode_log_record_pos(enc), Some(big));
}

#[test]
fn record_pos_ignores_trailing_bytes() {
    let pos = LogRecordPos { file_id: 1, offset: 128, size: 21 };
    let mut enc = pos.encode();
    enc.extend_from_slice(b"rest of the record");
    assert_eq!(decode_log_record_pos(enc), Some(pos));
}

#[test]
fn record_pos_rejects_malformed_bytes() {
    assert_eq!(decode_log_record_pos(vec![]), None);
    assert_eq!(decode_log_record_pos(vec![7, 0xac]), None);
    // a file id above u32::MAX
    assert_eq!(decode_log_record_pos(vec![0x80, 0x80, 0x80, 0x80, 0x10, 1, 1]), None);
    // a varint with a needless trailing zero group
    assert_eq!(decode_log_record_pos(vec![0x81, 0x00, 1, 1]), None);
}

#[test]
fn decode_error_kinds_follow_the_header() {
    // a length varint that never ends
    assert_eq!(
        decode_log_record(&[1, 0x80, 0x80, 0x80, 0x80, 0x80, 0x80, 0x80, 0x80, 0x80, 0x80, 0x80])
            .err(),
        Some(Errors::CorruptRecord)
    );
    // a length written with a needless zero group
    assert_eq!(decode_log_record(&[1, 0x84, 0x00, 0, b'n', b'a', b'm', b'e', 0, 0, 0, 0]).err(),
        Some(Errors::CorruptRecord));
    // the header announces more bytes than there are
    assert_eq!(decode_log_record(&[1, 4, 10, b'n', b'a']).err(), Some(Errors::ReadDataFileEOF));
    // every byte present, the checksum wrong
    let mut enc = record("name", "bitcask-rs", LogRecordType::NORMAL).encode();
    enc[5] ^= 1;
    assert_eq!(decode_log_record(&enc).err(), Some(Errors::CorruptRecord));
}

#[test]
fn header_size_is_eleven() {
    assert_eq!(max_log_record_header_size(), 11);
}
