use redis_starter_rust::command::{Command, ReplConfArg, XReadStreamArg};
use redis_starter_rust::db::RedisDb;
use redis_starter_rust::resp::RespValue;
use redis_starter_rust::server::{
    empty_snapshot, handle_config_get, handle_echo, handle_get, handle_info, handle_keys, handle_ping,
    handle_set, handle_type, handle_xadd, handle_xrange, handshake_commands, info_payload, is_ack_reply,
    handshake_reply_ok, parse_fullresync, parse_snapshot_frame, psync_reply, serves, snapshot_transfer, xread_reply,
    HandshakeError, MasterInfo, Outcome, RedisInfo, RedisRole, RedisState,
};

const ID: &[u8] = b"8371b4fb1155b71f4a04d3e1bc3e18c4a990aeeb";

fn master() -> RedisState {
    RedisState::new(RedisRole::Master, ID.to_vec(), RedisDb::new(), Some(b"/data".to_vec()), None)
}

fn reply_of(o: Outcome) -> Vec<u8> {
    match o {
        Outcome::Reply(v) | Outcome::Propagate(v, _) | Outcome::Appended(v, _) => v.to_bytes(),
        _ => panic!("expected a reply"),
    }
}
use redis_starter_rust::stream::{ReqStreamEntryID, StreamEntryID};

fn reply_to(bytes: &[u8], db: &mut RedisDb, now: u64) -> Vec<u8> {
    let (cmd, _) = Command::from_bytes(bytes).unwrap();
    let r = match cmd {
        Command::Ping => handle_ping(),
        Command::Echo(v) => handle_echo(&v),
        Command::SetKey { key, value, px } => handle_set(db, &key, &value, px, now),
        Command::Get(k) => handle_get(db, &k, now),
        Command::LookupType(k) => handle_type(db, &k, now),
        Command::XAdd { key, entry_id, data } => handle_xadd(db, &key, entry_id, data, now),
        Command::XRange { key, start, end } => handle_xrange(db, &key, start, end),
        _ => panic!("not a client command here"),
    };
    r.to_bytes()
}

#[test]
fn ping_and_echo() {
    let mut db = RedisDb::new();
    assert_eq!(reply_to(b"*1\r\n$4\r\nPING\r\n", &mut db, 0), b"+PONG\r\n");
    assert_eq!(reply_to(b"*2\r\n$4\r\nECHO\r\n$3\r\nhey\r\n", &mut db, 0), b"$3\r\nhey\r\n");
}

#[test]
fn set_get_with_px() {
    let mut db = RedisDb::new();
    let set = b"*5\r\n$3\r\nSET\r\n$1\r\nk\r\n$1\r\nv\r\n$2\r\npx\r\n$3\r\n100\r\n";
    let get = b"*2\r\n$3\r\nGET\r\n$1\r\nk\r\n";
    assert_eq!(reply_to(set, &mut db, 1_000), b"+OK\r\n");
    assert_eq!(reply_to(get, &mut db, 1_000), b"$1\r\nv\r\n");
    assert_eq!(reply_to(get, &mut db, 1_099), b"$1\r\nv\r\n");
    assert_eq!(reply_to(get, &mut db, 1_150), b"$-1\r\n");
    assert!(db.keys().is_empty());
}

#[test]
fn set_without_px_clears_deadline() {
    let mut db = RedisDb::new();
    handle_set(&mut db, &b"k".to_vec(), &b"1".to_vec(), Some(10), 0);
    handle_set(&mut db, &b"k".to_vec(), &b"2".to_vec(), None, 0);
    assert_eq!(db.get(&b"k".to_vec(), 1_000_000), Some(b"2".to_vec()));
    handle_set(&mut db, &b"k".to_vec(), &b"3".to_vec(), Some(u64::MAX), 5);
    assert_eq!(db.get(&b"k".to_vec(), u64::MAX - 1), Some(b"3".to_vec()));
}

#[test]
fn info_replication_master() {
    let info = RedisInfo::new(RedisRole::Master, ID.to_vec());
    let r = handle_info(&info);
    let payload = match r {
        RespValue::BulkString(p) => p,
        _ => panic!("INFO must be a bulk string"),
    };
    let text = String::from_utf8(payload).unwrap();
    let lines: Vec<&str> = text.split('\n').collect();
    assert!(lines.contains(&"role:master"));
    assert!(lines.contains(&"master_repl_offset:0"));
    let id = lines.iter().find(|l| l.starts_with("master_replid:")).unwrap();
    assert_eq!(id["master_replid:".len()..].len(), 40);
    assert_eq!(info_payload(RedisRole::Slave, &b"x".to_vec(), 7), b"role:slave\nmaster_replid:x\nmaster_repl_offset:7".to_vec());
    assert_eq!(MasterInfo::new(ID.to_vec()).repl_id, ID.to_vec());
}

#[test]
fn xadd_then_xrange() {
    let mut db = RedisDb::new();
    assert_eq!(reply_to(b"*5\r\n$4\r\nXADD\r\n$1\r\ns\r\n$3\r\n0-1\r\n$1\r\nt\r\n$2\r\n23\r\n", &mut db, 0), b"$3\r\n0-1\r\n");
    assert_eq!(
        reply_to(b"*5\r\n$4\r\nXADD\r\n$1\r\ns\r\n$3\r\n0-1\r\n$1\r\nt\r\n$2\r\n24\r\n", &mut db, 0),
        b"-ERR The ID specified in XADD is equal or smaller than the target stream top item\r\n"
    );
    assert_eq!(reply_to(b"*5\r\n$4\r\nXADD\r\n$1\r\ns\r\n$3\r\n0-2\r\n$1\r\nt\r\n$2\r\n24\r\n", &mut db, 0), b"$3\r\n0-2\r\n");
    assert_eq!(
        reply_to(b"*4\r\n$6\r\nXRANGE\r\n$1\r\ns\r\n$1\r\n-\r\n$1\r\n+\r\n", &mut db, 0),
        b"*2\r\n*2\r\n$3\r\n0-1\r\n*2\r\n$1\r\nt\r\n$2\r\n23\r\n*2\r\n$3\r\n0-2\r\n*2\r\n$1\r\nt\r\n$2\r\n24\r\n"
    );
    assert_eq!(
        reply_to(b"*5\r\n$4\r\nXADD\r\n$1\r\ns\r\n$3\r\n0-0\r\n$1\r\nt\r\n$1\r\n1\r\n", &mut db, 0),
        b"-ERR The ID specified in XADD must be greater than 0-0\r\n"
    );
}

#[test]
fn type_of_keys() {
    let mut db = RedisDb::new();
    handle_set(&mut db, &b"a".to_vec(), &b"1".to_vec(), None, 0);
    handle_xadd(&mut db, &b"s".to_vec(), None, vec![], 5);
    assert_eq!(handle_type(&mut db, &b"a".to_vec(), 0).to_bytes(), b"+string\r\n");
    assert_eq!(handle_type(&mut db, &b"s".to_vec(), 0).to_bytes(), b"+stream\r\n");
    assert_eq!(handle_type(&mut db, &b"zz".to_vec(), 0).to_bytes(), b"+none\r\n");
}

#[test]
fn keys_and_config() {
    let mut db = RedisDb::new();
    handle_set(&mut db, &b"a".to_vec(), &b"1".to_vec(), None, 0);
    assert_eq!(handle_keys(&db).to_bytes(), b"*1\r\n$1\r\na\r\n");
    let dir = Some(b"/tmp".to_vec());
    assert_eq!(handle_config_get(&b"DIR".to_vec(), &dir, &None).to_bytes(), b"*2\r\n$3\r\nDIR\r\n$4\r\n/tmp\r\n");
    assert_eq!(handle_config_get(&b"dbfilename".to_vec(), &dir, &None).to_bytes(), b"*2\r\n$10\r\ndbfilename\r\n$0\r\n\r\n");
}

#[test]
fn blocking_xread_waits_only_when_empty() {
    let mut db = RedisDb::new();
    handle_xadd(&mut db, &b"s".to_vec(), Some(ReqStreamEntryID { millis: 0, seq_num: Some(2) }), vec![], 0);
    let args = vec![XReadStreamArg { key: b"s".to_vec(), start: StreamEntryID { millis: 0, seq_num: 2 } }];
    assert!(xread_reply(db.xread(&args), Some(500)).is_none());
    assert_eq!(xread_reply(db.xread(&args), None).unwrap().to_bytes(), b"*1\r\n*2\r\n$1\r\ns\r\n*0\r\n");
    handle_xadd(&mut db, &b"s".to_vec(), Some(ReqStreamEntryID { millis: 0, seq_num: Some(3) }), vec![(b"x".to_vec(), b"1".to_vec())], 0);
    assert_eq!(
        xread_reply(db.xread(&args), Some(500)).unwrap().to_bytes(),
        b"*1\r\n*2\r\n$1\r\ns\r\n*1\r\n*2\r\n$3\r\n0-3\r\n*2\r\n$1\r\nx\r\n$1\r\n1\r\n"
    );
}

#[test]
fn master_propagation_advances_offset() {
    let mut state = master();
    let cmd = Command::SetKey { key: b"k".to_vec(), value: b"v".to_vec(), px: None };
    let bytes = state.propagate(&cmd);
    assert_eq!(bytes, b"*3\r\n$3\r\nSET\r\n$1\r\nk\r\n$1\r\nv\r\n");
    assert_eq!(state.info.master_repl_offset, bytes.len() as u64);
    let again = state.propagate(&cmd);
    assert_eq!(state.info.master_repl_offset, (bytes.len() + again.len()) as u64);
}

#[test]
fn replica_applies_set_and_acks_with_offset() {
    let mut state = RedisState::new(RedisRole::Slave, ID.to_vec(), RedisDb::new(), None, None);
    let set = Command::SetKey { key: b"k".to_vec(), value: b"v".to_vec(), px: None }.to_bytes();
    let getack = Command::ReplConf(ReplConfArg::GetAck).to_bytes();
    let mut stream = set.clone();
    stream.extend(&getack);
    let (n, reply) = state.handle_cmd_from_master(&stream, 0).unwrap();
    assert_eq!(n, set.len());
    assert!(reply.is_none());
    assert_eq!(state.db.get(&b"k".to_vec(), 0), Some(b"v".to_vec()));
    let (m, reply) = state.handle_cmd_from_master(&stream[n..], 0).unwrap();
    assert_eq!(m, getack.len());
    let expected_offset = (set.len() + getack.len()) as u64;
    assert_eq!(state.info.master_repl_offset, expected_offset);
    assert_eq!(reply.unwrap(), Command::ReplConf(ReplConfArg::Ack(expected_offset)).to_bytes());
    let ping = Command::Ping.to_bytes();
    let (_, reply) = state.handle_cmd_from_master(&ping, 0).unwrap();
    assert!(reply.is_none());
    assert_eq!(state.info.master_repl_offset, expected_offset + ping.len() as u64);
}

#[test]
fn handshake_sequence_and_fullresync() {
    let cmds = handshake_commands(6380);
    let wire: Vec<Vec<u8>> = cmds.iter().map(|c| c.to_bytes()).collect();
    assert_eq!(wire[0], b"*1\r\n$4\r\nPING\r\n");
    assert_eq!(wire[1], b"*3\r\n$8\r\nREPLCONF\r\n$14\r\nlistening-port\r\n$4\r\n6380\r\n");
    assert_eq!(wire[2], b"*3\r\n$8\r\nREPLCONF\r\n$4\r\ncapa\r\n$6\r\npsync2\r\n");
    assert_eq!(wire[3], b"*3\r\n$5\r\nPSYNC\r\n$1\r\n?\r\n$2\r\n-1\r\n");
    let id = ID.to_vec();
    let mut reply = psync_reply(&id);
    let snap = empty_snapshot().unwrap();
    reply.extend(snapshot_transfer(&snap));
    reply.extend(b"*1\r\n$4\r\nPING\r\n");
    let (info, rest) = parse_fullresync(&reply).unwrap();
    assert_eq!(info.repl_id, id);
    assert_eq!(info.repl_offset, 0);
    let (got, rest) = parse_snapshot_frame(rest).unwrap();
    assert_eq!(got, snap);
    assert_eq!(rest, b"*1\r\n$4\r\nPING\r\n");
    assert_eq!(parse_fullresync(b"+OK\r\n").err(), Some(HandshakeError::NotFullResync));
    assert_eq!(parse_fullresync(b":1\r\n").err(), Some(HandshakeError::NotSimpleString));
    assert_eq!(parse_snapshot_frame(b"$10\r\nabc").err(), Some(HandshakeError::BadSnapshotFrame));
}

#[test]
fn empty_snapshot_blob() {
    let snap = empty_snapshot().unwrap();
    assert_eq!(&snap[..5], b"REDIS");
    assert_eq!(snap.len(), 88);
    assert_eq!(snap[snap.len() - 9], 0xff);
    assert_eq!(&snapshot_transfer(&snap)[..5], b"$88\r\n");
}

#[test]
fn wait_counts_ack_replies() {
    assert!(is_ack_reply(&Command::ReplConf(ReplConfArg::Ack(31)).to_bytes()));
    assert!(!is_ack_reply(&Command::Ping.to_bytes()));
    assert!(!is_ack_reply(b"garbage"));
}

#[test]
fn replica_refuses_replication_commands_from_clients() {
    assert!(serves(RedisRole::Slave, &Command::Ping));
    assert!(serves(RedisRole::Slave, &Command::Get(b"k".to_vec())));
    assert!(!serves(RedisRole::Slave, &Command::PSync { repl_id: None, repl_offset: None }));
    assert!(!serves(RedisRole::Slave, &Command::ReplConf(ReplConfArg::GetAck)));
    assert!(serves(RedisRole::Master, &Command::PSync { repl_id: None, repl_offset: None }));
}

#[test]
fn wait_counting_rule() {
    use_wait();
}

fn use_wait() {
    assert_eq!(redis_starter_rust::server::wait_immediate(0, 2), Some(2));
    assert_eq!(redis_starter_rust::server::wait_immediate(31, 2), None);
    let mut count = redis_starter_rust::server::AckCount::new(2, 3);
    assert!(!count.done());
    count.record(true);
    count.record(false);
    assert!(!count.done());
    count.record(true);
    assert!(count.done());
    assert_eq!(count.acks, 2);
    let mut none = redis_starter_rust::server::AckCount::new(5, 1);
    none.record(false);
    assert!(none.done());
    assert_eq!(none.acks, 0);
}

#[test]
fn execute_serves_the_command_table() {
    let mut state = master();
    assert_eq!(reply_of(state.execute(Command::Ping, 0)), b"+PONG\r\n");
    let set = Command::SetKey { key: b"k".to_vec(), value: b"v".to_vec(), px: Some(100) };
    match state.execute(set.clone(), 1_000) {
        Outcome::Propagate(v, bytes) => {
            assert_eq!(v.to_bytes(), b"+OK\r\n");
            assert_eq!(bytes, set.to_bytes());
        }
        _ => panic!("SET on a master propagates"),
    }
    assert_eq!(state.info.master_repl_offset, set.to_bytes().len() as u64);
    assert_eq!(reply_of(state.execute(Command::Get(b"k".to_vec()), 1_050)), b"$1\r\nv\r\n");
    assert_eq!(reply_of(state.execute(Command::Get(b"k".to_vec()), 1_100)), b"$-1\r\n");
    let info = reply_of(state.execute(Command::Info(None), 0));
    assert!(String::from_utf8(info).unwrap().contains(&format!("master_repl_offset:{}", set.to_bytes().len())));
    let xadd = Command::XAdd { key: b"s".to_vec(), entry_id: None, data: vec![(b"t".to_vec(), b"1".to_vec())] };
    match state.execute(xadd, 1_500) {
        Outcome::Appended(v, key) => {
            assert_eq!(v.to_bytes(), b"$6\r\n1500-0\r\n");
            assert_eq!(key, b"s".to_vec());
        }
        _ => panic!("XADD wakes readers"),
    }
    let read = Command::XRead {
        block: Some(500),
        streams: vec![XReadStreamArg { key: b"s".to_vec(), start: StreamEntryID { millis: 1500, seq_num: 0 } }],
    };
    assert!(matches!(state.execute(read, 0), Outcome::Block(500)));
    assert!(matches!(state.execute(Command::Wait { repl_ack_num: 2, timeout_dur: 500 }, 0), Outcome::Wait(2, 500)));
    let cfg = reply_of(state.execute(Command::Config(redis_starter_rust::command::ConfigArg::Get(b"dir".to_vec())), 0));
    assert_eq!(cfg, b"*2\r\n$3\r\ndir\r\n$5\r\n/data\r\n");
    match state.execute(Command::PSync { repl_id: None, repl_offset: None }, 0) {
        Outcome::FullResync(bytes) => {
            let (info, rest) = parse_fullresync(&bytes).unwrap();
            assert_eq!(info.repl_id, ID.to_vec());
            assert_eq!(parse_snapshot_frame(rest).unwrap().0, empty_snapshot().unwrap());
        }
        _ => panic!("PSYNC on a master starts a full resync"),
    }
}

#[test]
fn replica_closes_on_unserved_commands() {
    let mut state = RedisState::new(RedisRole::Slave, ID.to_vec(), RedisDb::new(), None, None);
    assert!(matches!(state.execute(Command::PSync { repl_id: None, repl_offset: None }, 0), Outcome::Close));
    assert!(matches!(
        state.execute(Command::SetKey { key: b"k".to_vec(), value: b"v".to_vec(), px: None }, 0),
        Outcome::Close
    ));
    assert_eq!(reply_of(state.execute(Command::Ping, 0)), b"+PONG\r\n");
    assert!(String::from_utf8(reply_of(state.execute(Command::Info(None), 0))).unwrap().contains("role:slave"));
}

#[test]
fn handshake_replies_in_order() {
    assert!(handshake_reply_ok(0, b"+PONG\r\n"));
    assert!(!handshake_reply_ok(0, b"+OK\r\n"));
    assert!(handshake_reply_ok(1, b"+OK\r\n"));
    assert!(handshake_reply_ok(2, b"+OK\r\n"));
    assert!(!handshake_reply_ok(2, b"-ERR no\r\n"));
    assert!(!handshake_reply_ok(3, b"+OK\r\n"));
}
