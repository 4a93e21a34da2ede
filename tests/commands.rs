use redis_starter_rust::command::{Command, CommandError, ConfigArg, InfoArg, ReplConfArg, XReadStreamArg};
use redis_starter_rust::resp::DecodeError;
use redis_starter_rust::stream::{ReqStreamEntryID, StreamEntryID};

#[test]
fn decode_xread_singlestream() {
    let command = Command::XRead {
        block: None,
        streams: vec![XReadStreamArg {
            key: b"apple".to_vec(),
            start: StreamEntryID { millis: 0, seq_num: 0 },
        }],
    };
    let bytes = command.to_bytes();
    let expected = Some((command, &bytes[bytes.len()..]));
    let actual = Command::from_bytes(&bytes[..]).ok();
    assert_eq!(actual, expected);
}

#[test]
fn decode_xread_multistream() {
    let command = Command::XRead {
        block: None,
        streams: vec![
            XReadStreamArg { key: b"apple".to_vec(), start: StreamEntryID { millis: 0, seq_num: 0 } },
            XReadStreamArg { key: b"orange".to_vec(), start: StreamEntryID { millis: 0, seq_num: 1 } },
        ],
    };
    let bytes = command.to_bytes();
    let expected = Some((command, &bytes[bytes.len()..]));
    let actual = Command::from_bytes(&bytes[..]).ok();
    assert_eq!(actual, expected);
}

fn round_trip(c: Command) {
    let bytes = c.to_bytes();
    let (back, rest) = Command::from_bytes(&bytes).unwrap();
    assert_eq!(back, c);
    assert!(rest.is_empty());
}

#[test]
fn every_command_round_trips() {
    round_trip(Command::Ping);
    round_trip(Command::Echo(b"hey".to_vec()));
    round_trip(Command::SetKey { key: b"k".to_vec(), value: b"v".to_vec(), px: None });
    round_trip(Command::SetKey { key: b"k".to_vec(), value: b"v".to_vec(), px: Some(100) });
    round_trip(Command::Get(b"k".to_vec()));
    round_trip(Command::Info(None));
    round_trip(Command::Info(Some(InfoArg::Replication)));
    round_trip(Command::ReplConf(ReplConfArg::ListeningPort(6380)));
    round_trip(Command::ReplConf(ReplConfArg::Capa(vec![b"eof".to_vec(), b"psync2".to_vec()])));
    round_trip(Command::ReplConf(ReplConfArg::GetAck));
    round_trip(Command::ReplConf(ReplConfArg::Ack(31)));
    round_trip(Command::PSync { repl_id: None, repl_offset: None });
    round_trip(Command::PSync {
        repl_id: Some(b"8371b4fb1155b71f4a04d3e1bc3e18c4a990aeeb".to_vec()),
        repl_offset: Some(5),
    });
    round_trip(Command::Wait { repl_ack_num: 2, timeout_dur: 500 });
    round_trip(Command::Config(ConfigArg::Get(b"dir".to_vec())));
    round_trip(Command::Keys);
    round_trip(Command::LookupType(b"k".to_vec()));
    round_trip(Command::XAdd {
        key: b"s".to_vec(),
        entry_id: Some(ReqStreamEntryID { millis: 0, seq_num: Some(1) }),
        data: vec![(b"t".to_vec(), b"23".to_vec())],
    });
    round_trip(Command::XAdd { key: b"s".to_vec(), entry_id: None, data: vec![] });
    round_trip(Command::XAdd {
        key: b"s".to_vec(),
        entry_id: Some(ReqStreamEntryID { millis: 5, seq_num: None }),
        data: vec![(b"a".to_vec(), b"1".to_vec()), (b"b".to_vec(), b"2".to_vec())],
    });
    round_trip(Command::XRange {
        key: b"s".to_vec(),
        start: StreamEntryID { millis: 0, seq_num: 0 },
        end: StreamEntryID { millis: u64::MAX, seq_num: u64::MAX },
    });
    round_trip(Command::XRead {
        block: Some(500),
        streams: vec![XReadStreamArg { key: b"s".to_vec(), start: StreamEntryID { millis: 0, seq_num: 2 } }],
    });
}

#[test]
fn ping_and_set_wire_forms() {
    assert_eq!(Command::Ping.to_bytes(), b"*1\r\n$4\r\nPING\r\n");
    let set = Command::SetKey { key: b"k".to_vec(), value: b"v".to_vec(), px: Some(100) };
    assert_eq!(set.to_bytes(), b"*5\r\n$3\r\nSET\r\n$1\r\nk\r\n$1\r\nv\r\n$2\r\npx\r\n$3\r\n100\r\n");
    let ack = Command::ReplConf(ReplConfArg::Ack(0));
    assert_eq!(ack.to_bytes(), b"*3\r\n$8\r\nREPLCONF\r\n$3\r\nACK\r\n$1\r\n0\r\n");
}

#[test]
fn verbs_are_case_insensitive() {
    let (c, _) = Command::from_bytes(b"*2\r\n$4\r\neCHo\r\n$3\r\nhey\r\n").unwrap();
    assert_eq!(c, Command::Echo(b"hey".to_vec()));
}

#[test]
fn xrange_bounds_forms() {
    let (c, _) = Command::from_bytes(b"*4\r\n$6\r\nXRANGE\r\n$1\r\ns\r\n$1\r\n-\r\n$1\r\n+\r\n").unwrap();
    assert_eq!(
        c,
        Command::XRange {
            key: b"s".to_vec(),
            start: StreamEntryID { millis: 0, seq_num: 0 },
            end: StreamEntryID { millis: u64::MAX, seq_num: u64::MAX },
        }
    );
    let (c, _) = Command::from_bytes(b"*4\r\n$6\r\nXRANGE\r\n$1\r\ns\r\n$1\r\n3\r\n$1\r\n7\r\n").unwrap();
    assert_eq!(
        c,
        Command::XRange {
            key: b"s".to_vec(),
            start: StreamEntryID { millis: 3, seq_num: 0 },
            end: StreamEntryID { millis: 7, seq_num: u64::MAX },
        }
    );
}

#[test]
fn command_errors() {
    assert_eq!(Command::from_bytes(b"").unwrap_err(), CommandError::Decode(DecodeError::Truncated));
    assert_eq!(Command::from_bytes(b"+PING\r\n").unwrap_err(), CommandError::NotBulkStrings);
    assert_eq!(Command::from_bytes(b"*1\r\n:1\r\n").unwrap_err(), CommandError::NotBulkStrings);
    assert_eq!(Command::from_bytes(b"*1\r\n$4\r\nNOPE\r\n").unwrap_err(), CommandError::Invalid);
    // trailing arguments
    assert_eq!(Command::from_bytes(b"*2\r\n$4\r\nPING\r\n$1\r\nx\r\n").unwrap_err(), CommandError::Invalid);
    // unknown INFO section, unknown CONFIG key, odd XADD pairs
    assert_eq!(Command::from_bytes(b"*2\r\n$4\r\nINFO\r\n$3\r\nfoo\r\n").unwrap_err(), CommandError::Invalid);
    assert_eq!(
        Command::from_bytes(b"*3\r\n$6\r\nCONFIG\r\n$3\r\nGET\r\n$4\r\nport\r\n").unwrap_err(),
        CommandError::Invalid
    );
    assert_eq!(
        Command::from_bytes(b"*4\r\n$4\r\nXADD\r\n$1\r\ns\r\n$1\r\n*\r\n$1\r\nf\r\n").unwrap_err(),
        CommandError::Invalid
    );
    // bad PX
    assert_eq!(
        Command::from_bytes(b"*5\r\n$3\r\nSET\r\n$1\r\nk\r\n$1\r\nv\r\n$2\r\npx\r\n$2\r\nab\r\n").unwrap_err(),
        CommandError::Invalid
    );
}
