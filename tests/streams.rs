use redis_starter_rust::command::XReadStreamArg;
use redis_starter_rust::db::RedisDb;
use redis_starter_rust::stream::{make_stream_entry_id, RedisStream, ReqStreamEntryID, StreamEntryID, StreamError};

fn fields(pairs: &[(&[u8], &[u8])]) -> Vec<(Vec<u8>, Vec<u8>)> {
    pairs.iter().map(|(a, b)| (a.to_vec(), b.to_vec())).collect()
}

fn make_sample_stream() -> RedisStream {
    let mut stream = RedisStream::new();
    let _ = stream.insert(
        Some(ReqStreamEntryID { millis: 0, seq_num: Some(2) }),
        fields(&[(b"foo", b"0"), (b"bar", b"2")]),
        0,
    );
    let _ = stream.insert(
        Some(ReqStreamEntryID { millis: 0, seq_num: Some(3) }),
        fields(&[(b"foo", b"0"), (b"bar", b"3")]),
        0,
    );
    let _ = stream.insert(
        Some(ReqStreamEntryID { millis: 0, seq_num: Some(4) }),
        fields(&[(b"foo", b"0"), (b"bar", b"4")]),
        0,
    );
    stream
}

fn ids(v: Vec<(Vec<u8>, Vec<Vec<u8>>)>) -> Vec<Vec<u8>> {
    v.into_iter().map(|(id, _)| id).collect()
}

#[test]
fn test_stream_xrange() {
    let stream = make_sample_stream();
    let actual = stream.xrange(StreamEntryID { millis: 0, seq_num: 2 }, StreamEntryID { millis: 0, seq_num: 3 });
    assert_eq!(ids(actual), vec![b"0-2".to_vec(), b"0-3".to_vec()]);
}

#[test]
fn test_stream_xrange_startmin() {
    let stream = make_sample_stream();
    let actual = stream.xrange(StreamEntryID { millis: 0, seq_num: 0 }, StreamEntryID { millis: 0, seq_num: 2 });
    assert_eq!(ids(actual), vec![b"0-2".to_vec()]);
}

#[test]
fn test_stream_xrange_endmax() {
    let stream = make_sample_stream();
    let actual = stream.xrange(
        StreamEntryID { millis: 0, seq_num: 3 },
        StreamEntryID { millis: u64::MAX, seq_num: u64::MAX },
    );
    assert_eq!(ids(actual), vec![b"0-3".to_vec(), b"0-4".to_vec()]);
}

fn get_sample_db() -> RedisDb {
    let mut db = RedisDb::new();
    let _ = db.xadd(&b"apple".to_vec(), Some(ReqStreamEntryID { millis: 0, seq_num: Some(1) }), fields(&[(b"temperature", b"23")]), 0);
    let _ = db.xadd(&b"apple".to_vec(), Some(ReqStreamEntryID { millis: 0, seq_num: Some(2) }), fields(&[(b"temperature", b"24")]), 0);
    let _ = db.xadd(&b"orange".to_vec(), Some(ReqStreamEntryID { millis: 0, seq_num: Some(4) }), fields(&[(b"temperature", b"20")]), 0);
    db
}

#[test]
fn test_xread_singlestream() {
    let db = get_sample_db();
    let args = &vec![XReadStreamArg { key: b"apple".to_vec(), start: StreamEntryID { millis: 0, seq_num: 1 } }];
    let expected = vec![(
        b"apple".to_vec(),
        vec![(b"0-2".to_vec(), vec![b"temperature".to_vec(), b"24".to_vec()])],
    )];
    assert_eq!(db.xread(args), expected);
}

#[test]
fn test_xread_multistream() {
    let db = get_sample_db();
    let args = &vec![
        XReadStreamArg { key: b"apple".to_vec(), start: StreamEntryID { millis: 0, seq_num: 1 } },
        XReadStreamArg { key: b"orange".to_vec(), start: StreamEntryID { millis: 0, seq_num: 3 } },
    ];
    let expected = vec![
        (b"apple".to_vec(), vec![(b"0-2".to_vec(), vec![b"temperature".to_vec(), b"24".to_vec()])]),
        (b"orange".to_vec(), vec![(b"0-4".to_vec(), vec![b"temperature".to_vec(), b"20".to_vec()])]),
    ];
    assert_eq!(db.xread(args), expected);
}

fn req(millis: u64, seq: Option<u64>) -> Option<ReqStreamEntryID> {
    Some(ReqStreamEntryID { millis, seq_num: seq })
}

fn id(millis: u64, seq_num: u64) -> StreamEntryID {
    StreamEntryID { millis, seq_num }
}

#[test]
fn id_resolution_rules() {
    let empty = id(0, 0);
    assert_eq!(make_stream_entry_id(req(0, Some(0)), &empty, 9), Err(StreamError::ZeroId));
    assert_eq!(make_stream_entry_id(req(0, None), &empty, 9), Ok(id(0, 1)));
    assert_eq!(make_stream_entry_id(None, &empty, 1500), Ok(id(1500, 0)));
    let last = id(5, 3);
    assert_eq!(make_stream_entry_id(req(5, None), &last, 9), Ok(id(5, 4)));
    assert_eq!(make_stream_entry_id(req(6, None), &last, 9), Ok(id(6, 0)));
    assert_eq!(make_stream_entry_id(req(5, Some(3)), &last, 9), Err(StreamError::NotAboveTop));
    assert_eq!(make_stream_entry_id(req(4, Some(9)), &last, 9), Err(StreamError::NotAboveTop));
    assert_eq!(make_stream_entry_id(None, &last, 9), Ok(id(5, 4)));
    assert_eq!(make_stream_entry_id(None, &id(5, u64::MAX), 9), Err(StreamError::NotAboveTop));
}

#[test]
fn ids_strictly_increase_and_refusals_change_nothing() {
    let mut s = RedisStream::new();
    let a = s.insert(req(0, Some(1)), fields(&[(b"t", b"23")]), 0).unwrap();
    assert_eq!(s.insert(req(0, Some(1)), fields(&[(b"t", b"24")]), 0), Err(StreamError::NotAboveTop));
    let b = s.insert(req(0, Some(2)), fields(&[(b"t", b"24")]), 0).unwrap();
    let c = s.insert(None, fields(&[]), 0).unwrap();
    assert!((a.millis, a.seq_num) < (b.millis, b.seq_num));
    assert!((b.millis, b.seq_num) < (c.millis, c.seq_num));
    assert_eq!(s.last_entry(), c);
    let all = s.xrange(id(0, 0), id(u64::MAX, u64::MAX));
    assert_eq!(ids(all), vec![b"0-1".to_vec(), b"0-2".to_vec(), b"0-3".to_vec()]);
}

#[test]
fn after_cursor_read() {
    let mut s = RedisStream::new();
    s.insert(req(1, Some(u64::MAX)), fields(&[(b"a", b"1")]), 0).unwrap();
    s.insert(req(2, Some(0)), fields(&[(b"b", b"2")]), 0).unwrap();
    assert_eq!(ids(s.xread(&id(1, u64::MAX))), vec![b"2-0".to_vec()]);
    assert_eq!(ids(s.xread(&id(0, 5))), vec![b"1-18446744073709551615".to_vec(), b"2-0".to_vec()]);
    assert!(s.xread(&id(u64::MAX, u64::MAX)).is_empty());
}

#[test]
fn error_messages() {
    assert_eq!(StreamError::ZeroId.message(), b"ERR The ID specified in XADD must be greater than 0-0".to_vec());
    assert_eq!(
        StreamError::NotAboveTop.message(),
        b"ERR The ID specified in XADD is equal or smaller than the target stream top item".to_vec()
    );
}
