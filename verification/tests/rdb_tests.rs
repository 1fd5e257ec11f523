use verdis::db::{Expiry, RDB_V_Type, RdbFile, RedisValue, Score, RDB_VERSION};
use verdis::rdb::{rdb_parse, rdb_write, StorageError};

fn sample_file() -> RdbFile {
    let mut f = RdbFile::new(RDB_VERSION);
    f.set_aux(b"redis-ver".to_vec(), b"7.2.0".to_vec());
    f.insert(0, b"greeting".to_vec(), RedisValue::Str(b"hello".to_vec()), None);
    f.insert(
        0,
        b"soon".to_vec(),
        RedisValue::Str(b"gone".to_vec()),
        Some(Expiry::Milliseconds(1_700_000_000_000)),
    );
    f.insert(
        0,
        b"later".to_vec(),
        RedisValue::Str(b"kept".to_vec()),
        Some(Expiry::Seconds(1_700_000_000)),
    );
    f.insert(
        1,
        b"list".to_vec(),
        RedisValue::List(vec![b"a".to_vec(), b"b".to_vec(), b"".to_vec()]),
        None,
    );
    f.insert(
        1,
        b"set".to_vec(),
        RedisValue::SetVal(vec![b"x".to_vec(), b"y".to_vec()]),
        None,
    );
    f.insert(
        1,
        b"hash".to_vec(),
        RedisValue::Hash(vec![(b"f1".to_vec(), b"v1".to_vec()), (b"f2".to_vec(), b"v2".to_vec())]),
        None,
    );
    f.insert(
        1,
        b"zset".to_vec(),
        RedisValue::SortedSet(vec![
            (b"inf".to_vec(), Score::PosInf),
            (b"ninf".to_vec(), Score::NegInf),
            (b"nan".to_vec(), Score::NotANum),
            (b"one".to_vec(), Score::Finite(1.0f64.to_bits())),
        ]),
        None,
    );
    f
}

#[test]
fn written_file_starts_with_magic_and_version() {
    let bytes = rdb_write(&RdbFile::new(RDB_VERSION));
    assert_eq!(&bytes[0..9], b"REDIS0009");
    assert_eq!(bytes[9], 0xFF);
    assert_eq!(bytes.len(), 18); // magic, version, end marker, 8-byte trailer
}

#[test]
fn round_trip_empty_file() {
    let f = RdbFile::new(RDB_VERSION);
    let bytes = rdb_write(&f);
    let g = rdb_parse(&bytes).expect("empty image must parse");
    assert_eq!(g, f);
}

#[test]
fn round_trip_full_file() {
    let f = sample_file();
    let bytes = rdb_write(&f);
    let g = rdb_parse(&bytes).expect("written image must parse");
    assert_eq!(g, f);
}

#[test]
fn trailer_depends_on_content() {
    let a = rdb_write(&RdbFile::new(RDB_VERSION));
    let f = sample_file();
    let b = rdb_write(&f);
    let ta = &a[a.len() - 8..];
    let tb = &b[b.len() - 8..];
    assert_ne!(ta, tb);
}

#[test]
fn corrupted_byte_fails_the_checksum() {
    let f = sample_file();
    let mut bytes = rdb_write(&f);
    // flip one payload byte; the stored checksum no longer matches
    bytes[20] ^= 0x01;
    let r = rdb_parse(&bytes);
    assert!(matches!(
        r,
        Err(StorageError::CrcMismatch)
            | Err(StorageError::UnknownControl)
            | Err(StorageError::Truncated)
            | Err(StorageError::UnsupportedType)
            | Err(StorageError::UnsupportedEncoding)
            | Err(StorageError::TrailingBytes)
    ));
    assert!(r.is_err());
}

#[test]
fn corrupted_trailer_is_a_crc_mismatch() {
    let f = sample_file();
    let mut bytes = rdb_write(&f);
    let n = bytes.len();
    bytes[n - 1] ^= 0xFF;
    assert_eq!(rdb_parse(&bytes), Err(StorageError::CrcMismatch));
}

#[test]
fn bad_magic_is_reported() {
    let f = RdbFile::new(RDB_VERSION);
    let mut bytes = rdb_write(&f);
    bytes[0] = b'X';
    assert_eq!(rdb_parse(&bytes), Err(StorageError::BadMagic));
}

#[test]
fn bad_version_is_reported() {
    let f = RdbFile::new(RDB_VERSION);
    let mut bytes = rdb_write(&f);
    bytes[5] = b'x';
    assert_eq!(rdb_parse(&bytes), Err(StorageError::BadVersion));
}

#[test]
fn truncated_input_is_reported() {
    assert_eq!(rdb_parse(b"REDIS000"), Err(StorageError::Truncated));
    let f = sample_file();
    let bytes = rdb_write(&f);
    assert_eq!(rdb_parse(&bytes[0..bytes.len() - 3]), Err(StorageError::Truncated));
}

#[test]
fn unknown_control_byte_is_reported() {
    let mut bytes = b"REDIS0009".to_vec();
    bytes.push(0x42);
    assert_eq!(rdb_parse(&bytes), Err(StorageError::UnknownControl));
}

#[test]
fn integer_encoded_aux_value_reads_as_decimal_text() {
    // REDIS0009, aux "redis-bits" with the 8-bit integer 64, end marker
    let mut body = b"REDIS0009".to_vec();
    body.push(0xFA);
    body.push(10);
    body.extend_from_slice(b"redis-bits");
    body.push(0xC0); // special form: one signed byte follows
    body.push(64);
    body.push(0xFF);
    let mut d = crc64fast::Digest::new();
    d.write(&body);
    let crc = d.sum64();
    body.extend_from_slice(&crc.to_le_bytes());
    let f = rdb_parse(&body).expect("image with an inline integer must parse");
    assert_eq!(f.aux_fields, vec![(b"redis-bits".to_vec(), b"64".to_vec())]);
}

#[test]
fn oversized_string_is_rejected() {
    // a declared string length far past the accepted maximum
    let mut body = b"REDIS0009".to_vec();
    body.push(0xFA);
    body.push(0x80); // four-byte length form
    body.extend_from_slice(&(2_000_000u32).to_le_bytes());
    body.push(0xFF);
    let r = rdb_parse(&body);
    assert_eq!(r, Err(StorageError::OversizedString));
}

#[test]
fn compressed_strings_are_unsupported() {
    let mut body = b"REDIS0009".to_vec();
    body.push(0xFA);
    body.push(0xC3); // LZF marker
    body.push(0xFF);
    assert_eq!(rdb_parse(&body), Err(StorageError::UnsupportedEncoding));
}

#[test]
fn unsupported_value_type_is_reported() {
    let mut body = b"REDIS0009".to_vec();
    body.push(0xFE);
    body.push(0); // database index 0
    body.push(0xFB);
    body.push(1); // one entry
    body.push(0); // empty expire table
    body.push(9); // value type 9: not supported
    body.push(1);
    body.push(b'k');
    body.push(0xFF);
    assert_eq!(rdb_parse(&body), Err(StorageError::UnsupportedType));
}

#[test]
fn large_strings_use_the_four_byte_length_form() {
    let mut f = RdbFile::new(RDB_VERSION);
    let big = vec![7u8; 20000];
    f.insert(0, b"big".to_vec(), RedisValue::Str(big), None);
    let bytes = rdb_write(&f);
    let g = rdb_parse(&bytes).expect("large strings must round trip");
    assert_eq!(g, f);
}

#[test]
fn value_type_bytes_map_to_tags() {
    assert_eq!(RDB_V_Type::from_byte(0), Some(RDB_V_Type::Str));
    assert_eq!(RDB_V_Type::from_byte(1), Some(RDB_V_Type::List));
    assert_eq!(RDB_V_Type::from_byte(2), Some(RDB_V_Type::Hash));
    assert_eq!(RDB_V_Type::from_byte(3), Some(RDB_V_Type::SetVal));
    assert_eq!(RDB_V_Type::from_byte(4), Some(RDB_V_Type::SortedSet));
    assert_eq!(RDB_V_Type::from_byte(9), None);
}
