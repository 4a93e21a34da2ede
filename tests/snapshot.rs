use redis_starter_rust::db::RedisDb;
use redis_starter_rust::rdb::{extract_rdb_objlength, extract_rdb_string, parse_rdb, select_current, RdbError, RdbLength};

#[test]
fn test_parse_empty_rdb() {
    let bytes = hex::decode("524544495330303131fa0972656469732d76657205372e322e30fa0a72656469732d62697473c040fa056374696d65c26d08bc65fa08757365642d6d656dc2b0c41000fa08616f662d62617365c000fff06e3bfec0ff5aa2").expect("Valid HEX");
    let rdb = parse_rdb(&bytes, 0).expect("Valid empty RDB");
    assert!(rdb.databases.is_empty());
}

#[test]
fn test_parse_1kv_rdb() {
    let bytes = hex::decode("524544495330303131fa0972656469732d76657205372e322e34fa0a72656469732d62697473c040fa056374696d65c247561266fa08757365642d6d656dc2e0461100fa08616f662d62617365c000fe00fb010000056d796b6579056d7976616cff59eeb542a15e83f7").expect("Valid HEX");
    let rdb = parse_rdb(&bytes, 0).expect("Valid RDB with 1 KV pair");
    assert_eq!(rdb.databases.len(), 1);
}

#[test]
fn loaded_pair_is_readable() {
    let bytes = hex::decode("524544495330303131fe00fb010000056d796b6579056d7976616cff").unwrap();
    let rdb = parse_rdb(&bytes, 0).unwrap();
    let (n, mut db) = select_current(rdb.databases);
    assert_eq!(n, 0);
    assert_eq!(db.get(&b"mykey".to_vec(), 0), Some(b"myval".to_vec()));
}

#[test]
fn expired_pairs_are_dropped_on_load() {
    // db 0: "a" expires at 1000 ms, "b" at 5000 ms (8-byte little-endian deadlines)
    let mut bytes = b"REDIS0011".to_vec();
    bytes.extend([0xfe, 0x00]);
    bytes.push(0xfc);
    bytes.extend(1000u64.to_le_bytes());
    bytes.extend([0x00, 0x01, b'a', 0x01, b'1']);
    bytes.push(0xfc);
    bytes.extend(5000u64.to_le_bytes());
    bytes.extend([0x00, 0x01, b'b', 0x01, b'2']);
    bytes.push(0xff);
    let rdb = parse_rdb(&bytes, 2000).unwrap();
    let (_, mut db) = select_current(rdb.databases);
    assert_eq!(db.get(&b"a".to_vec(), 2000), None);
    assert_eq!(db.get(&b"b".to_vec(), 2000), Some(b"2".to_vec()));
    assert_eq!(db.get(&b"b".to_vec(), 5000), None);
}

#[test]
fn length_encodings() {
    assert_eq!(extract_rdb_objlength(&[0x0a]).unwrap().0, RdbLength::Length(10));
    assert_eq!(extract_rdb_objlength(&[0x41, 0x02]).unwrap().0, RdbLength::Length(258));
    assert_eq!(extract_rdb_objlength(&[0x80, 0x00, 0x01, 0x00, 0x00]).unwrap().0, RdbLength::Length(65536));
    assert_eq!(extract_rdb_objlength(&[0xc3]).unwrap().0, RdbLength::Format(3));
    assert_eq!(extract_rdb_objlength(&[0x41]).unwrap_err(), RdbError::Truncated);
}

#[test]
fn integer_encoded_strings() {
    assert_eq!(extract_rdb_string(&[0xc0, 0x40]).unwrap().0, b"64".to_vec());
    assert_eq!(extract_rdb_string(&[0xc0, 0xff]).unwrap().0, b"-1".to_vec());
    assert_eq!(extract_rdb_string(&[0xc1, 0x39, 0x30]).unwrap().0, b"12345".to_vec());
    assert_eq!(extract_rdb_string(&[0xc2, 0x6d, 0x08, 0xbc, 0x65]).unwrap().0, b"1706821741".to_vec());
    assert_eq!(extract_rdb_string(&[0xc5]).unwrap_err(), RdbError::BadLengthEncoding);
}

#[test]
fn compressed_string() {
    let text = b"aaaaaaaaaaaaaaaaaaaaaaaaaaaaaaaaaaaaaaaabbbbbbbbbbbbbbbbbbbb".to_vec();
    assert!(text.len() < 64);
    let packed = lzf::compress(&text).unwrap();
    let mut bytes = vec![0xc3, packed.len() as u8, text.len() as u8];
    bytes.extend(&packed);
    bytes.push(0x07);
    let (s, rest) = extract_rdb_string(&bytes).unwrap();
    assert_eq!(s, text);
    assert_eq!(rest, &[0x07]);
    let bad = vec![0xc3, 0x02, 0x05, 0xff, 0xff];
    assert_eq!(extract_rdb_string(&bad).unwrap_err(), RdbError::BadCompressedData);
}

#[test]
fn snapshot_errors() {
    assert_eq!(parse_rdb(b"RADIS0011\xff", 0).err(), Some(RdbError::BadMagic));
    assert_eq!(parse_rdb(b"REDIS00", 0).err(), Some(RdbError::Truncated));
    assert_eq!(parse_rdb(b"REDIS0011", 0).err(), Some(RdbError::Truncated));
    assert_eq!(parse_rdb(b"REDIS0011\x00", 0).err(), Some(RdbError::UnexpectedOpcode));
    assert_eq!(parse_rdb(b"REDIS0011\xfe\x00\x04\x01k\x01v\xff", 0).err(), Some(RdbError::UnsupportedValueType));
    assert_eq!(parse_rdb(b"REDIS0011\xfe\xc0", 0).err(), Some(RdbError::BadLengthEncoding));
}

#[test]
fn current_database_is_lowest_or_new() {
    let (n, db) = select_current(vec![]);
    assert_eq!(n, 0);
    assert!(db.keys().is_empty());
    let mut a = RedisDb::new();
    a.set(&b"x".to_vec(), b"1".to_vec(), None, 0);
    let (n, db) = select_current(vec![(3, RedisDb::new()), (1, a), (2, RedisDb::new())]);
    assert_eq!(n, 1);
    assert_eq!(db.keys(), vec![b"x".to_vec()]);
}
