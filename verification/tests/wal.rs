use bloomy::storage::wal::{
    crc32, encode_record, read_header, read_record, read_record_at, write_header, write_record,
    ReadRecord, WalRecord, DELETE_KIND, FILE_HEADER_BYTES, PUT_KIND, RECORD_HEADER_BYTES,
    RECORD_METADATA_BYTES,
};

#[test]
fn header_round_trip_succeeds() {
    let mut bytes = Vec::new();

    write_header(&mut bytes);
    read_header(&bytes).unwrap();
}

#[test]
fn read_header_rejects_invalid_magic() {
    let bytes = b"NOTAWAL!\x01\x00";

    let error = read_header(bytes).unwrap_err();

    assert!(error.message().contains("invalid WAL file magic"));
}

#[test]
fn put_record_round_trip_preserves_key_and_value() {
    let record = WalRecord::Put {
        key: b"alpha".to_vec(),
        value: b"one".to_vec(),
    };
    let encoded = encode_record(&record).unwrap();

    let decoded = read_record(&encoded).unwrap();

    assert_eq!(decoded, ReadRecord::Record(record));
}

#[test]
fn delete_record_round_trip_preserves_tombstone_key() {
    let record = WalRecord::Delete {
        key: b"alpha".to_vec(),
    };
    let encoded = encode_record(&record).unwrap();

    let decoded = read_record(&encoded).unwrap();

    assert_eq!(decoded, ReadRecord::Record(record));
}

#[test]
fn empty_value_put_is_valid() {
    let record = WalRecord::Put {
        key: b"alpha".to_vec(),
        value: Vec::new(),
    };
    let encoded = encode_record(&record).unwrap();

    let decoded = read_record(&encoded).unwrap();

    assert_eq!(decoded, ReadRecord::Record(record));
}

#[test]
fn empty_key_is_rejected() {
    let record = WalRecord::Put {
        key: Vec::new(),
        value: b"one".to_vec(),
    };

    let error = encode_record(&record).unwrap_err();

    assert!(error.message().contains("key must not be empty"));
}

#[test]
fn clean_eof_between_records_is_reported() {
    let decoded = read_record(&Vec::new()).unwrap();

    assert_eq!(decoded, ReadRecord::CleanEof);
}

#[test]
fn partial_tail_is_reported_without_corruption_error() {
    let mut encoded = encode_record(&WalRecord::Put {
        key: b"alpha".to_vec(),
        value: b"one".to_vec(),
    })
    .unwrap();
    encoded.pop();

    let decoded = read_record(&encoded).unwrap();

    assert_eq!(decoded, ReadRecord::PartialTail);
}

#[test]
fn checksum_mismatch_is_rejected() {
    let mut encoded = encode_record(&WalRecord::Put {
        key: b"alpha".to_vec(),
        value: b"one".to_vec(),
    })
    .unwrap();
    encoded[RECORD_HEADER_BYTES + RECORD_METADATA_BYTES] ^= 0xff;

    let error = read_record(&encoded).unwrap_err();

    assert!(error.message().contains("checksum mismatch"));
}

#[test]
fn delete_payload_with_value_is_rejected() {
    let mut payload = Vec::new();
    payload.push(DELETE_KIND);
    payload.extend_from_slice(&5u32.to_le_bytes());
    payload.extend_from_slice(&3u32.to_le_bytes());
    payload.extend_from_slice(b"alpha");
    payload.extend_from_slice(b"one");

    let mut encoded = Vec::new();
    encoded.extend_from_slice(&(payload.len() as u32).to_le_bytes());
    encoded.extend_from_slice(&payload);
    let checksum = crc32(&encoded);
    encoded.extend_from_slice(&checksum.to_le_bytes());

    let error = read_record(&encoded).unwrap_err();

    assert!(
        error
            .message()
            .contains("delete record must not include a value")
    );
}

fn frame(payload: &[u8]) -> Vec<u8> {
    let mut encoded = Vec::new();
    encoded.extend_from_slice(&(payload.len() as u32).to_le_bytes());
    encoded.extend_from_slice(payload);
    let checksum = crc32(&encoded);
    encoded.extend_from_slice(&checksum.to_le_bytes());
    encoded
}

#[test]
fn crc32_matches_the_standard_check_value() {
    assert_eq!(crc32(b"123456789"), 0xcbf4_3926);
    assert_eq!(crc32(b""), 0);
    assert_eq!(crc32(b"a"), 0xe8b7_be43);
}

#[test]
fn header_bytes_are_magic_then_version() {
    let mut bytes = vec![7u8];
    write_header(&mut bytes);
    assert_eq!(bytes, b"\x07BLOOMWAL\x01\x00".to_vec());
    assert_eq!(bytes.len() - 1, FILE_HEADER_BYTES);
}

#[test]
fn read_header_rejects_other_version_and_short_input() {
    let error = read_header(b"BLOOMWAL\x07\x00").unwrap_err();
    assert_eq!(error.message(), "unsupported WAL format version: 7");
    let error = read_header(b"BLOOMWAL\x01").unwrap_err();
    assert_eq!(error, bloomy::error::Error::TruncatedHeader);
    read_header(b"BLOOMWAL\x01\x00trailing").unwrap();
}

#[test]
fn put_record_encoding_is_exact() {
    let encoded = encode_record(&WalRecord::Put { key: b"k".to_vec(), value: b"vv".to_vec() }).unwrap();
    let mut expected = vec![12, 0, 0, 0, PUT_KIND, 1, 0, 0, 0, 2, 0, 0, 0, b'k', b'v', b'v'];
    let checksum = crc32(&expected);
    expected.extend_from_slice(&checksum.to_le_bytes());
    assert_eq!(encoded, expected);
}

#[test]
fn write_record_appends_and_returns_length() {
    let mut out = vec![1, 2, 3];
    let record = WalRecord::Delete { key: b"gone".to_vec() };
    let written = write_record(&mut out, &record).unwrap();
    assert_eq!(written, out.len() - 3);
    assert_eq!(out[..3], [1, 2, 3]);
    assert_eq!(&out[3..], &encode_record(&record).unwrap()[..]);
    let mut untouched = vec![9];
    assert!(write_record(&mut untouched, &WalRecord::Delete { key: Vec::new() }).is_err());
    assert_eq!(untouched, vec![9]);
}

#[test]
fn read_record_at_walks_consecutive_records() {
    let first = WalRecord::Put { key: b"a".to_vec(), value: b"1".to_vec() };
    let second = WalRecord::Delete { key: b"a".to_vec() };
    let mut log = Vec::new();
    write_record(&mut log, &first).unwrap();
    let boundary = log.len();
    write_record(&mut log, &second).unwrap();
    let (r1, next) = read_record_at(&log, 0).unwrap();
    assert_eq!(r1, ReadRecord::Record(first));
    assert_eq!(next, boundary);
    let (r2, end) = read_record_at(&log, next).unwrap();
    assert_eq!(r2, ReadRecord::Record(second));
    assert_eq!(end, log.len());
    assert_eq!(read_record_at(&log, end).unwrap(), (ReadRecord::CleanEof, end));
}

#[test]
fn every_strict_prefix_reads_as_partial_tail() {
    let encoded = encode_record(&WalRecord::Put { key: b"key".to_vec(), value: b"value".to_vec() }).unwrap();
    assert_eq!(read_record(&encoded[..0]).unwrap(), ReadRecord::CleanEof);
    for cut in 1..encoded.len() {
        assert_eq!(read_record(&encoded[..cut]).unwrap(), ReadRecord::PartialTail);
    }
}

#[test]
fn oversized_length_is_rejected() {
    let bytes = (64 * 1024 * 1024 + 1u32).to_le_bytes();
    let error = read_record(&bytes).unwrap_err();
    assert_eq!(error.message(), "WAL record payload length exceeds maximum: 67108865");
}

#[test]
fn malformed_payloads_are_rejected() {
    let short = frame(&[PUT_KIND, 1, 0, 0]);
    assert_eq!(read_record(&short).unwrap_err().message(), "WAL record payload is too short");

    let empty_key = frame(&[PUT_KIND, 0, 0, 0, 0, 0, 0, 0, 0]);
    assert!(read_record(&empty_key).unwrap_err().message().contains("key must not be empty"));

    let mismatch = frame(&[PUT_KIND, 2, 0, 0, 0, 0, 0, 0, 0, b'a']);
    assert_eq!(read_record(&mismatch).unwrap_err().message(), "WAL record payload length mismatch");

    let unknown = frame(&[9, 1, 0, 0, 0, 0, 0, 0, 0, b'a']);
    assert_eq!(read_record(&unknown).unwrap_err().message(), "unknown WAL record kind: 9");
}
