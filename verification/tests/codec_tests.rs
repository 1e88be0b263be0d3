use actionkv::codec::{decode_record, encode_record, StoreError};

#[test]
fn encode_empty_record_is_all_zero_header() {
    // CRC-32 of the empty byte string is 0, and both lengths are 0.
    let rec = encode_record(b"", b"");
    assert_eq!(rec, vec![0u8; 12]);
}

#[test]
fn encode_uses_ieee_crc32() {
    // The documented check value: crc32(b"123456789") == 0xcbf43926,
    // stored little-endian in the first four header bytes.
    let rec = encode_record(b"1234", b"56789");
    assert_eq!(&rec[0..4], &[0x26, 0x39, 0xf4, 0xcb]);
    assert_eq!(&rec[4..8], &[4, 0, 0, 0]);
    assert_eq!(&rec[8..12], &[5, 0, 0, 0]);
    assert_eq!(&rec[12..16], b"1234");
    assert_eq!(&rec[16..21], b"56789");
}

#[test]
fn round_trip_plain_record() {
    let rec = encode_record(b"key", b"value");
    let (kv, next) = decode_record(&rec, 0).unwrap();
    assert_eq!(kv.key, b"key".to_vec());
    assert_eq!(kv.value, b"value".to_vec());
    assert_eq!(next, rec.len());
}

#[test]
fn round_trip_empty_value() {
    let rec = encode_record(b"gone", b"");
    let (kv, next) = decode_record(&rec, 0).unwrap();
    assert_eq!(kv.key, b"gone".to_vec());
    assert_eq!(kv.value, Vec::<u8>::new());
    assert_eq!(next, rec.len());
}

#[test]
fn round_trip_binary_bytes_with_zeros() {
    let key = vec![0u8, 255, 1, 0, 7];
    let value = vec![0u8, 0, 254, 0];
    let rec = encode_record(&key, &value);
    let (kv, next) = decode_record(&rec, 0).unwrap();
    assert_eq!(kv.key, key);
    assert_eq!(kv.value, value);
    assert_eq!(next, rec.len());
}

#[test]
fn round_trip_at_offset() {
    let mut log = encode_record(b"a", b"1");
    let second = log.len();
    log.extend(encode_record(b"b", b"2"));
    let (kv, next) = decode_record(&log, second).unwrap();
    assert_eq!(kv.key, b"b".to_vec());
    assert_eq!(kv.value, b"2".to_vec());
    assert_eq!(next, log.len());
}

#[test]
fn flipped_checksum_byte_is_detected() {
    let mut rec = encode_record(b"key", b"value");
    rec[0] ^= 0x01;
    assert_eq!(decode_record(&rec, 0), Err(StoreError::ChecksumMismatch));
}

#[test]
fn every_checksum_byte_matters() {
    for i in 0..4 {
        let mut rec = encode_record(b"k", b"v");
        rec[i] = rec[i].wrapping_add(1);
        assert_eq!(decode_record(&rec, 0), Err(StoreError::ChecksumMismatch));
    }
}

#[test]
fn short_header_is_end_of_log() {
    let rec = encode_record(b"key", b"value");
    assert_eq!(decode_record(&rec[0..8], 0), Err(StoreError::EndOfLog));
    assert_eq!(decode_record(&[], 0), Err(StoreError::EndOfLog));
    // Reading exactly at the end of a valid log is the clean end too.
    assert_eq!(decode_record(&rec, rec.len()), Err(StoreError::EndOfLog));
}

#[test]
fn short_body_is_truncated() {
    let rec = encode_record(b"key", b"value");
    let cut = &rec[0..rec.len() - 1];
    assert_eq!(decode_record(cut, 0), Err(StoreError::Truncated));
    // Header only, body missing entirely.
    assert_eq!(decode_record(&rec[0..12], 0), Err(StoreError::Truncated));
}
