//! The command model: every supported request as a tagged variant, written
//! as an array of bulk strings and read back from one.
use vstd::prelude::*;
use crate::resp::{decode, lemma_terms_of, parse_value, term_of, terms_of, DecodeError, RespTerm, RespValue};
use crate::stream::{id_text, Fields, ReqStreamEntryID, StreamEntryID};
use crate::utils::{
    byte_views, copy_bytes, decimal, decimal_bytes, find_dash, is_word, lower, parse_decimal,
    parse_decimal_spec, split_dash,
};

verus! {

#[derive(Debug, Clone, Copy, PartialEq, Eq)]
pub enum InfoArg {
    Replication,
}

#[derive(Debug, Clone, PartialEq, Eq)]
pub enum ReplConfArg {
    ListeningPort(u16),
    Capa(Vec<Vec<u8>>),
    GetAck,
    Ack(u64),
}

/// `CONFIG GET <key>`; the key is `dir` or `dbfilename`, in any case.
#[derive(Debug, Clone, PartialEq, Eq)]
pub enum ConfigArg {
    Get(Vec<u8>),
}

#[derive(Debug, Clone, PartialEq, Eq)]
pub struct XReadStreamArg {
    pub key: Vec<u8>,
    pub start: StreamEntryID,
}

/// A request. Durations are in milliseconds; the replication ID of `PSync` has 40 bytes.
#[derive(Debug, Clone, PartialEq, Eq)]
pub enum Command {
    Ping,
    Echo(Vec<u8>),
    SetKey { key: Vec<u8>, value: Vec<u8>, px: Option<u64> },
    Get(Vec<u8>),
    Info(Option<InfoArg>),
    ReplConf(ReplConfArg),
    PSync { repl_id: Option<Vec<u8>>, repl_offset: Option<u64> },
    Wait { repl_ack_num: u64, timeout_dur: u64 },
    Config(ConfigArg),
    Keys,
    LookupType(Vec<u8>),
    XAdd { key: Vec<u8>, entry_id: Option<ReqStreamEntryID>, data: Fields },
    XRange { key: Vec<u8>, start: StreamEntryID, end: StreamEntryID },
    XRead { block: Option<u64>, streams: Vec<XReadStreamArg> },
}

/// Why bytes do not read as a command.
#[derive(Debug, Clone, Copy, PartialEq, Eq)]
pub enum CommandError {
    /// The bytes are no protocol value.
    Decode(DecodeError),
    /// The value is not an array of bulk strings.
    NotBulkStrings,
    /// The verb is unknown, or its arguments do not fit it.
    Invalid,
}

pub enum ReplConfTerm {
    ListeningPort(u16),
    Capa(Seq<Seq<u8>>),
    GetAck,
    Ack(u64),
}

/// The mathematical value of a command.
pub enum CommandTerm {
    Ping,
    Echo(Seq<u8>),
    SetKey { key: Seq<u8>, value: Seq<u8>, px: Option<u64> },
    Get(Seq<u8>),
    Info(Option<InfoArg>),
    ReplConf(ReplConfTerm),
    PSync { repl_id: Option<Seq<u8>>, repl_offset: Option<u64> },
    Wait { repl_ack_num: u64, timeout_dur: u64 },
    ConfigGet(Seq<u8>),
    Keys,
    LookupType(Seq<u8>),
    XAdd { key: Seq<u8>, entry_id: Option<ReqStreamEntryID>, data: Seq<(Seq<u8>, Seq<u8>)> },
    XRange { key: Seq<u8>, start: StreamEntryID, end: StreamEntryID },
    XRead { block: Option<u64>, streams: Seq<(Seq<u8>, StreamEntryID)> },
}

pub open spec fn fields_view(f: Seq<(Vec<u8>, Vec<u8>)>) -> Seq<(Seq<u8>, Seq<u8>)> {
    f.map_values(|p: (Vec<u8>, Vec<u8>)| (p.0@, p.1@))
}

pub open spec fn streams_view(s: Seq<XReadStreamArg>) -> Seq<(Seq<u8>, StreamEntryID)> {
    s.map_values(|a: XReadStreamArg| (a.key@, a.start))
}

impl View for Command {
    type V = CommandTerm;

    open spec fn view(&self) -> CommandTerm {
        match self {
            Command::Ping => CommandTerm::Ping,
            Command::Echo(x) => CommandTerm::Echo(x@),
            Command::SetKey { key, value, px } => CommandTerm::SetKey { key: key@, value: value@, px: *px },
            Command::Get(k) => CommandTerm::Get(k@),
            Command::Info(a) => CommandTerm::Info(*a),
            Command::ReplConf(a) => CommandTerm::ReplConf(
                match a {
                    ReplConfArg::ListeningPort(p) => ReplConfTerm::ListeningPort(*p),
                    ReplConfArg::Capa(cs) => ReplConfTerm::Capa(byte_views(cs@)),
                    ReplConfArg::GetAck => ReplConfTerm::GetAck,
                    ReplConfArg::Ack(n) => ReplConfTerm::Ack(*n),
                },
            ),
            Command::PSync { repl_id, repl_offset } => CommandTerm::PSync {
                repl_id: match repl_id {
                    Some(id) => Some(id@),
                    None => None,
                },
                repl_offset: *repl_offset,
            },
            Command::Wait { repl_ack_num, timeout_dur } => CommandTerm::Wait {
                repl_ack_num: *repl_ack_num,
                timeout_dur: *timeout_dur,
            },
            Command::Config(ConfigArg::Get(k)) => CommandTerm::ConfigGet(k@),
            Command::Keys => CommandTerm::Keys,
            Command::LookupType(k) => CommandTerm::LookupType(k@),
            Command::XAdd { key, entry_id, data } => CommandTerm::XAdd {
                key: key@,
                entry_id: *entry_id,
                data: fields_view(data@),
            },
            Command::XRange { key, start, end } => CommandTerm::XRange { key: key@, start: *start, end: *end },
            Command::XRead { block, streams } => CommandTerm::XRead { block: *block, streams: streams_view(streams@) },
        }
    }
}

/// `ping`
pub open spec fn w_ping() -> Seq<u8> {
    seq![112u8, 105u8, 110u8, 103u8]
}

/// `echo`
pub open spec fn w_echo() -> Seq<u8> {
    seq![101u8, 99u8, 104u8, 111u8]
}

/// `set`
pub open spec fn w_set() -> Seq<u8> {
    seq![115u8, 101u8, 116u8]
}

/// `px`
pub open spec fn w_px() -> Seq<u8> {
    seq![112u8, 120u8]
}

/// `get`
pub open spec fn w_get() -> Seq<u8> {
    seq![103u8, 101u8, 116u8]
}

/// `info`
pub open spec fn w_info() -> Seq<u8> {
    seq![105u8, 110u8, 102u8, 111u8]
}

/// `replication`
pub open spec fn w_replication() -> Seq<u8> {
    seq![114u8, 101u8, 112u8, 108u8, 105u8, 99u8, 97u8, 116u8, 105u8, 111u8, 110u8]
}

/// `replconf`
pub open spec fn w_replconf() -> Seq<u8> {
    seq![114u8, 101u8, 112u8, 108u8, 99u8, 111u8, 110u8, 102u8]
}

/// `listening-port`
pub open spec fn w_listening_port() -> Seq<u8> {
    seq![108u8, 105u8, 115u8, 116u8, 101u8, 110u8, 105u8, 110u8, 103u8, 45u8, 112u8, 111u8, 114u8, 116u8]
}

/// `capa`
pub open spec fn w_capa() -> Seq<u8> {
    seq![99u8, 97u8, 112u8, 97u8]
}

/// `getack`
pub open spec fn w_getack() -> Seq<u8> {
    seq![103u8, 101u8, 116u8, 97u8, 99u8, 107u8]
}

/// `ack`
pub open spec fn w_ack() -> Seq<u8> {
    seq![97u8, 99u8, 107u8]
}

/// `psync`
pub open spec fn w_psync() -> Seq<u8> {
    seq![112u8, 115u8, 121u8, 110u8, 99u8]
}

/// `wait`
pub open spec fn w_wait() -> Seq<u8> {
    seq![119u8, 97u8, 105u8, 116u8]
}

/// `config`
pub open spec fn w_config() -> Seq<u8> {
    seq![99u8, 111u8, 110u8, 102u8, 105u8, 103u8]
}

/// `dir`
pub open spec fn w_dir() -> Seq<u8> {
    seq![100u8, 105u8, 114u8]
}

/// `dbfilename`
pub open spec fn w_dbfilename() -> Seq<u8> {
    seq![100u8, 98u8, 102u8, 105u8, 108u8, 101u8, 110u8, 97u8, 109u8, 101u8]
}

/// `keys`
pub open spec fn w_keys() -> Seq<u8> {
    seq![107u8, 101u8, 121u8, 115u8]
}

/// `type`
pub open spec fn w_type() -> Seq<u8> {
    seq![116u8, 121u8, 112u8, 101u8]
}

/// `xadd`
pub open spec fn w_xadd() -> Seq<u8> {
    seq![120u8, 97u8, 100u8, 100u8]
}

/// `xrange`
pub open spec fn w_xrange() -> Seq<u8> {
    seq![120u8, 114u8, 97u8, 110u8, 103u8, 101u8]
}

/// `xread`
pub open spec fn w_xread() -> Seq<u8> {
    seq![120u8, 114u8, 101u8, 97u8, 100u8]
}

/// `block`
pub open spec fn w_block() -> Seq<u8> {
    seq![98u8, 108u8, 111u8, 99u8, 107u8]
}

/// `streams`
pub open spec fn w_streams() -> Seq<u8> {
    seq![115u8, 116u8, 114u8, 101u8, 97u8, 109u8, 115u8]
}

/// `PING`
pub open spec fn u_ping() -> Seq<u8> {
    seq![80u8, 73u8, 78u8, 71u8]
}

/// `ECHO`
pub open spec fn u_echo() -> Seq<u8> {
    seq![69u8, 67u8, 72u8, 79u8]
}

/// `SET`
pub open spec fn u_set() -> Seq<u8> {
    seq![83u8, 69u8, 84u8]
}

/// `GET`
pub open spec fn u_get() -> Seq<u8> {
    seq![71u8, 69u8, 84u8]
}

/// `INFO`
pub open spec fn u_info() -> Seq<u8> {
    seq![73u8, 78u8, 70u8, 79u8]
}

/// `REPLCONF`
pub open spec fn u_replconf() -> Seq<u8> {
    seq![82u8, 69u8, 80u8, 76u8, 67u8, 79u8, 78u8, 70u8]
}

/// `GETACK`
pub open spec fn u_getack() -> Seq<u8> {
    seq![71u8, 69u8, 84u8, 65u8, 67u8, 75u8]
}

/// `ACK`
pub open spec fn u_ack() -> Seq<u8> {
    seq![65u8, 67u8, 75u8]
}

/// `PSYNC`
pub open spec fn u_psync() -> Seq<u8> {
    seq![80u8, 83u8, 89u8, 78u8, 67u8]
}

/// `WAIT`
pub open spec fn u_wait() -> Seq<u8> {
    seq![87u8, 65u8, 73u8, 84u8]
}

/// `CONFIG`
pub open spec fn u_config() -> Seq<u8> {
    seq![67u8, 79u8, 78u8, 70u8, 73u8, 71u8]
}

/// `KEYS`
pub open spec fn u_keys() -> Seq<u8> {
    seq![75u8, 69u8, 89u8, 83u8]
}

/// `TYPE`
pub open spec fn u_type() -> Seq<u8> {
    seq![84u8, 89u8, 80u8, 69u8]
}

/// `XADD`
pub open spec fn u_xadd() -> Seq<u8> {
    seq![88u8, 65u8, 68u8, 68u8]
}

/// `XRANGE`
pub open spec fn u_xrange() -> Seq<u8> {
    seq![88u8, 82u8, 65u8, 78u8, 71u8, 69u8]
}

/// `XREAD`
pub open spec fn u_xread() -> Seq<u8> {
    seq![88u8, 82u8, 69u8, 65u8, 68u8]
}

/// An explicit ID `m-s`, or a bare `m` with sequence number `dflt`.
pub open spec fn parse_id(s: Seq<u8>, dflt: u64) -> Option<StreamEntryID> {
    match split_dash(s) {
        Some((a, b)) => match (parse_decimal_spec(a), parse_decimal_spec(b)) {
            (Some(m), Some(q)) => Some(StreamEntryID { millis: m, seq_num: q }),
            _ => None,
        },
        None => match parse_decimal_spec(s) {
            Some(m) => Some(StreamEntryID { millis: m, seq_num: dflt }),
            None => None,
        },
    }
}

/// The ID argument of XADD: `*`, `m-*` or `m-s`.
pub open spec fn parse_req_id(s: Seq<u8>) -> Option<Option<ReqStreamEntryID>> {
    if s == seq![42u8] {
        Some(None)
    } else {
        match split_dash(s) {
            Some((a, b)) => match parse_decimal_spec(a) {
                Some(m) => if b == seq![42u8] {
                    Some(Some(ReqStreamEntryID { millis: m, seq_num: None }))
                } else {
                    match parse_decimal_spec(b) {
                        Some(q) => Some(Some(ReqStreamEntryID { millis: m, seq_num: Some(q) })),
                        None => None,
                    }
                },
                None => None,
            },
            None => None,
        }
    }
}

pub open spec fn parse_set(rest: Seq<Seq<u8>>) -> Option<CommandTerm> {
    if rest.len() == 2 {
        Some(CommandTerm::SetKey { key: rest[0], value: rest[1], px: None })
    } else if rest.len() == 4 && lower(rest[2]) == w_px() {
        match parse_decimal_spec(rest[3]) {
            Some(ms) => Some(CommandTerm::SetKey { key: rest[0], value: rest[1], px: Some(ms) }),
            None => None,
        }
    } else {
        None
    }
}

pub open spec fn capa_list(rest: Seq<Seq<u8>>) -> bool {
    &&& rest.len() >= 2
    &&& rest.len() % 2 == 0
    &&& forall|i: int| 0 <= i < rest.len() / 2 ==> lower(#[trigger] rest[2 * i]) == w_capa()
}

pub open spec fn parse_replconf(rest: Seq<Seq<u8>>) -> Option<CommandTerm> {
    if rest.len() == 0 {
        None
    } else {
        let sub = lower(rest[0]);
        if sub == w_listening_port() {
            if rest.len() == 2 {
                match parse_decimal_spec(rest[1]) {
                    Some(p) => if p <= 65535 {
                        Some(CommandTerm::ReplConf(ReplConfTerm::ListeningPort(p as u16)))
                    } else {
                        None
                    },
                    None => None,
                }
            } else {
                None
            }
        } else if sub == w_capa() {
            if capa_list(rest) {
                Some(
                    CommandTerm::ReplConf(
                        ReplConfTerm::Capa(Seq::new((rest.len() / 2) as nat, |i: int| rest[2 * i + 1])),
                    ),
                )
            } else {
                None
            }
        } else if sub == w_getack() {
            if rest.len() == 2 && rest[1] == seq![42u8] {
                Some(CommandTerm::ReplConf(ReplConfTerm::GetAck))
            } else {
                None
            }
        } else if sub == w_ack() {
            if rest.len() == 2 {
                match parse_decimal_spec(rest[1]) {
                    Some(n) => Some(CommandTerm::ReplConf(ReplConfTerm::Ack(n))),
                    None => None,
                }
            } else {
                None
            }
        } else {
            None
        }
    }
}

pub open spec fn parse_repl_id(s: Seq<u8>) -> Option<Option<Seq<u8>>> {
    if s == seq![63u8] {
        Some(None)
    } else if s.len() == 40 {
        Some(Some(s))
    } else {
        None
    }
}

pub open spec fn parse_repl_offset(s: Seq<u8>) -> Option<Option<u64>> {
    if s == seq![45u8, 49u8] {
        Some(None)
    } else {
        match parse_decimal_spec(s) {
            Some(n) => Some(Some(n)),
            None => None,
        }
    }
}

pub open spec fn parse_psync(rest: Seq<Seq<u8>>) -> Option<CommandTerm> {
    if rest.len() == 2 {
        match (parse_repl_id(rest[0]), parse_repl_offset(rest[1])) {
            (Some(id), Some(off)) => Some(CommandTerm::PSync { repl_id: id, repl_offset: off }),
            _ => None,
        }
    } else {
        None
    }
}

pub open spec fn parse_xadd(rest: Seq<Seq<u8>>) -> Option<CommandTerm> {
    if rest.len() >= 2 && rest.len() % 2 == 0 {
        match parse_req_id(rest[1]) {
            Some(id) => Some(
                CommandTerm::XAdd {
                    key: rest[0],
                    entry_id: id,
                    data: Seq::new(
                        ((rest.len() - 2) / 2) as nat,
                        |i: int| (rest[2 * i + 2], rest[2 * i + 3]),
                    ),
                },
            ),
            None => None,
        }
    } else {
        None
    }
}

pub open spec fn parse_range_start(s: Seq<u8>) -> Option<StreamEntryID> {
    if s == seq![45u8] {
        Some(StreamEntryID { millis: 0, seq_num: 0 })
    } else {
        parse_id(s, 0)
    }
}

pub open spec fn parse_range_end(s: Seq<u8>) -> Option<StreamEntryID> {
    if s == seq![43u8] {
        Some(StreamEntryID { millis: u64::MAX, seq_num: u64::MAX })
    } else {
        parse_id(s, u64::MAX)
    }
}

pub open spec fn parse_xrange(rest: Seq<Seq<u8>>) -> Option<CommandTerm> {
    if rest.len() == 3 {
        match (parse_range_start(rest[1]), parse_range_end(rest[2])) {
            (Some(a), Some(b)) => Some(CommandTerm::XRange { key: rest[0], start: a, end: b }),
            _ => None,
        }
    } else {
        None
    }
}

/// `streams k1 .. kn id1 .. idn`, with `n >= 1`.
pub open spec fn parse_streams(t: Seq<Seq<u8>>, block: Option<u64>) -> Option<CommandTerm> {
    let n = (t.len() - 1) / 2;
    if t.len() >= 3 && t.len() % 2 == 1 && lower(t[0]) == w_streams() && (forall|i: int|
        0 <= i < n ==> (#[trigger] parse_id(t[1 + n + i], 0)) is Some) {
        Some(
            CommandTerm::XRead {
                block,
                streams: Seq::new(n as nat, |i: int| (t[1 + i], parse_id(t[1 + n + i], 0)->0)),
            },
        )
    } else {
        None
    }
}

pub open spec fn parse_xread(rest: Seq<Seq<u8>>) -> Option<CommandTerm> {
    if rest.len() >= 1 && lower(rest[0]) == w_block() {
        if rest.len() >= 2 {
            match parse_decimal_spec(rest[1]) {
                Some(ms) => parse_streams(rest.subrange(2, rest.len() as int), Some(ms)),
                None => None,
            }
        } else {
            None
        }
    } else {
        parse_streams(rest, None)
    }
}

/// The command that an argument list stands for, if any. Verbs and keywords
/// are read case-insensitively.
#[verifier::opaque]
pub open spec fn parse_args(args: Seq<Seq<u8>>) -> Option<CommandTerm> {
    if args.len() == 0 {
        None
    } else {
        let verb = lower(args[0]);
        let rest = args.subrange(1, args.len() as int);
        if verb == w_ping() {
            if rest.len() == 0 { Some(CommandTerm::Ping) } else { None }
        } else if verb == w_echo() {
            if rest.len() == 1 { Some(CommandTerm::Echo(rest[0])) } else { None }
        } else if verb == w_set() {
            parse_set(rest)
        } else if verb == w_get() {
            if rest.len() == 1 { Some(CommandTerm::Get(rest[0])) } else { None }
        } else if verb == w_info() {
            if rest.len() == 0 {
                Some(CommandTerm::Info(None))
            } else if rest.len() == 1 && lower(rest[0]) == w_replication() {
                Some(CommandTerm::Info(Some(InfoArg::Replication)))
            } else {
                None
            }
        } else if verb == w_replconf() {
            parse_replconf(rest)
        } else if verb == w_psync() {
            parse_psync(rest)
        } else if verb == w_wait() {
            if rest.len() == 2 {
                match (parse_decimal_spec(rest[0]), parse_decimal_spec(rest[1])) {
                    (Some(n), Some(t)) => Some(CommandTerm::Wait { repl_ack_num: n, timeout_dur: t }),
                    _ => None,
                }
            } else {
                None
            }
        } else if verb == w_config() {
            if rest.len() == 2 && lower(rest[0]) == w_get() && (lower(rest[1]) == w_dir() || lower(rest[1])
                == w_dbfilename()) {
                Some(CommandTerm::ConfigGet(rest[1]))
            } else {
                None
            }
        } else if verb == w_keys() {
            if rest.len() == 1 { Some(CommandTerm::Keys) } else { None }
        } else if verb == w_type() {
            if rest.len() == 1 { Some(CommandTerm::LookupType(rest[0])) } else { None }
        } else if verb == w_xadd() {
            parse_xadd(rest)
        } else if verb == w_xrange() {
            parse_xrange(rest)
        } else if verb == w_xread() {
            parse_xread(rest)
        } else {
            None
        }
    }
}

/// The arguments of an array of bulk strings.
pub open spec fn bulk_args(t: RespTerm) -> Option<Seq<Seq<u8>>> {
    match t {
        RespTerm::Arr(es) => if forall|i: int| 0 <= i < es.len() ==> (#[trigger] es[i]) is Bulk {
            Some(Seq::new(es.len(), |i: int| es[i]->Bulk_0))
        } else {
            None
        },
        _ => None,
    }
}

/// What reading a command off the front of `s` gives.
pub open spec fn parse_frame(s: Seq<u8>) -> Result<(CommandTerm, Seq<u8>), CommandError> {
    match parse_value(s) {
        Err(e) => Err(CommandError::Decode(e)),
        Ok((t, rest)) => match bulk_args(t) {
            None => Err(CommandError::NotBulkStrings),
            Some(args) => match parse_args(args) {
                Some(c) => Ok((c, rest)),
                None => Err(CommandError::Invalid),
            },
        },
    }
}

fn word_ping() -> (r: Vec<u8>)
    ensures
        r@ == w_ping(),
{
    vec![112u8, 105u8, 110u8, 103u8]
}

fn word_echo() -> (r: Vec<u8>)
    ensures
        r@ == w_echo(),
{
    vec![101u8, 99u8, 104u8, 111u8]
}

fn word_set() -> (r: Vec<u8>)
    ensures
        r@ == w_set(),
{
    vec![115u8, 101u8, 116u8]
}

fn word_px() -> (r: Vec<u8>)
    ensures
        r@ == w_px(),
{
    vec![112u8, 120u8]
}

fn word_get() -> (r: Vec<u8>)
    ensures
        r@ == w_get(),
{
    vec![103u8, 101u8, 116u8]
}

fn word_info() -> (r: Vec<u8>)
    ensures
        r@ == w_info(),
{
    vec![105u8, 110u8, 102u8, 111u8]
}

fn word_replication() -> (r: Vec<u8>)
    ensures
        r@ == w_replication(),
{
    vec![114u8, 101u8, 112u8, 108u8, 105u8, 99u8, 97u8, 116u8, 105u8, 111u8, 110u8]
}

fn word_replconf() -> (r: Vec<u8>)
    ensures
        r@ == w_replconf(),
{
    vec![114u8, 101u8, 112u8, 108u8, 99u8, 111u8, 110u8, 102u8]
}

fn word_listening_port() -> (r: Vec<u8>)
    ensures
        r@ == w_listening_port(),
{
    vec![108u8, 105u8, 115u8, 116u8, 101u8, 110u8, 105u8, 110u8, 103u8, 45u8, 112u8, 111u8, 114u8, 116u8]
}

fn word_capa() -> (r: Vec<u8>)
    ensures
        r@ == w_capa(),
{
    vec![99u8, 97u8, 112u8, 97u8]
}

fn word_getack() -> (r: Vec<u8>)
    ensures
        r@ == w_getack(),
{
    vec![103u8, 101u8, 116u8, 97u8, 99u8, 107u8]
}

fn word_ack() -> (r: Vec<u8>)
    ensures
        r@ == w_ack(),
{
    vec![97u8, 99u8, 107u8]
}

fn word_psync() -> (r: Vec<u8>)
    ensures
        r@ == w_psync(),
{
    vec![112u8, 115u8, 121u8, 110u8, 99u8]
}

fn word_wait() -> (r: Vec<u8>)
    ensures
        r@ == w_wait(),
{
    vec![119u8, 97u8, 105u8, 116u8]
}

fn word_config() -> (r: Vec<u8>)
    ensures
        r@ == w_config(),
{
    vec![99u8, 111u8, 110u8, 102u8, 105u8, 103u8]
}

fn word_dir() -> (r: Vec<u8>)
    ensures
        r@ == w_dir(),
{
    vec![100u8, 105u8, 114u8]
}

fn word_dbfilename() -> (r: Vec<u8>)
    ensures
        r@ == w_dbfilename(),
{
    vec![100u8, 98u8, 102u8, 105u8, 108u8, 101u8, 110u8, 97u8, 109u8, 101u8]
}

fn word_keys() -> (r: Vec<u8>)
    ensures
        r@ == w_keys(),
{
    vec![107u8, 101u8, 121u8, 115u8]
}

fn word_type() -> (r: Vec<u8>)
    ensures
        r@ == w_type(),
{
    vec![116u8, 121u8, 112u8, 101u8]
}

fn word_xadd() -> (r: Vec<u8>)
    ensures
        r@ == w_xadd(),
{
    vec![120u8, 97u8, 100u8, 100u8]
}

fn word_xrange() -> (r: Vec<u8>)
    ensures
        r@ == w_xrange(),
{
    vec![120u8, 114u8, 97u8, 110u8, 103u8, 101u8]
}

fn word_xread() -> (r: Vec<u8>)
    ensures
        r@ == w_xread(),
{
    vec![120u8, 114u8, 101u8, 97u8, 100u8]
}

fn word_block() -> (r: Vec<u8>)
    ensures
        r@ == w_block(),
{
    vec![98u8, 108u8, 111u8, 99u8, 107u8]
}

fn word_streams() -> (r: Vec<u8>)
    ensures
        r@ == w_streams(),
{
    vec![115u8, 116u8, 114u8, 101u8, 97u8, 109u8, 115u8]
}

fn upper_ping() -> (r: Vec<u8>)
    ensures
        r@ == u_ping(),
{
    vec![80u8, 73u8, 78u8, 71u8]
}

fn upper_echo() -> (r: Vec<u8>)
    ensures
        r@ == u_echo(),
{
    vec![69u8, 67u8, 72u8, 79u8]
}

fn upper_set() -> (r: Vec<u8>)
    ensures
        r@ == u_set(),
{
    vec![83u8, 69u8, 84u8]
}

fn upper_get() -> (r: Vec<u8>)
    ensures
        r@ == u_get(),
{
    vec![71u8, 69u8, 84u8]
}

fn upper_info() -> (r: Vec<u8>)
    ensures
        r@ == u_info(),
{
    vec![73u8, 78u8, 70u8, 79u8]
}

fn upper_replconf() -> (r: Vec<u8>)
    ensures
        r@ == u_replconf(),
{
    vec![82u8, 69u8, 80u8, 76u8, 67u8, 79u8, 78u8, 70u8]
}

fn upper_getack() -> (r: Vec<u8>)
    ensures
        r@ == u_getack(),
{
    vec![71u8, 69u8, 84u8, 65u8, 67u8, 75u8]
}

fn upper_ack() -> (r: Vec<u8>)
    ensures
        r@ == u_ack(),
{
    vec![65u8, 67u8, 75u8]
}

fn upper_psync() -> (r: Vec<u8>)
    ensures
        r@ == u_psync(),
{
    vec![80u8, 83u8, 89u8, 78u8, 67u8]
}

fn upper_wait() -> (r: Vec<u8>)
    ensures
        r@ == u_wait(),
{
    vec![87u8, 65u8, 73u8, 84u8]
}

fn upper_config() -> (r: Vec<u8>)
    ensures
        r@ == u_config(),
{
    vec![67u8, 79u8, 78u8, 70u8, 73u8, 71u8]
}

fn upper_keys() -> (r: Vec<u8>)
    ensures
        r@ == u_keys(),
{
    vec![75u8, 69u8, 89u8, 83u8]
}

fn upper_type() -> (r: Vec<u8>)
    ensures
        r@ == u_type(),
{
    vec![84u8, 89u8, 80u8, 69u8]
}

fn upper_xadd() -> (r: Vec<u8>)
    ensures
        r@ == u_xadd(),
{
    vec![88u8, 65u8, 68u8, 68u8]
}

fn upper_xrange() -> (r: Vec<u8>)
    ensures
        r@ == u_xrange(),
{
    vec![88u8, 82u8, 65u8, 78u8, 71u8, 69u8]
}

fn upper_xread() -> (r: Vec<u8>)
    ensures
        r@ == u_xread(),
{
    vec![88u8, 82u8, 69u8, 65u8, 68u8]
}

proof fn lemma_verbs()
    ensures
        lower(u_ping()) == w_ping(),
        lower(u_echo()) == w_echo(),
        lower(u_set()) == w_set(),
        lower(u_get()) == w_get(),
        lower(u_info()) == w_info(),
        lower(u_replconf()) == w_replconf(),
        lower(u_getack()) == w_getack(),
        lower(u_ack()) == w_ack(),
        lower(u_psync()) == w_psync(),
        lower(u_wait()) == w_wait(),
        lower(u_config()) == w_config(),
        lower(u_keys()) == w_keys(),
        lower(u_type()) == w_type(),
        lower(u_xadd()) == w_xadd(),
        lower(u_xrange()) == w_xrange(),
        lower(u_xread()) == w_xread(),
        lower(w_ping()) == w_ping(),
        lower(w_echo()) == w_echo(),
        lower(w_set()) == w_set(),
        lower(w_px()) == w_px(),
        lower(w_get()) == w_get(),
        lower(w_info()) == w_info(),
        lower(w_replication()) == w_replication(),
        lower(w_replconf()) == w_replconf(),
        lower(w_listening_port()) == w_listening_port(),
        lower(w_capa()) == w_capa(),
        lower(w_getack()) == w_getack(),
        lower(w_ack()) == w_ack(),
        lower(w_psync()) == w_psync(),
        lower(w_wait()) == w_wait(),
        lower(w_config()) == w_config(),
        lower(w_dir()) == w_dir(),
        lower(w_dbfilename()) == w_dbfilename(),
        lower(w_keys()) == w_keys(),
        lower(w_type()) == w_type(),
        lower(w_xadd()) == w_xadd(),
        lower(w_xrange()) == w_xrange(),
        lower(w_xread()) == w_xread(),
        lower(w_block()) == w_block(),
        lower(w_streams()) == w_streams(),
{
    assert(lower(u_ping()) =~= w_ping());
    assert(lower(u_echo()) =~= w_echo());
    assert(lower(u_set()) =~= w_set());
    assert(lower(u_get()) =~= w_get());
    assert(lower(u_info()) =~= w_info());
    assert(lower(u_replconf()) =~= w_replconf());
    assert(lower(u_getack()) =~= w_getack());
    assert(lower(u_ack()) =~= w_ack());
    assert(lower(u_psync()) =~= w_psync());
    assert(lower(u_wait()) =~= w_wait());
    assert(lower(u_config()) =~= w_config());
    assert(lower(u_keys()) =~= w_keys());
    assert(lower(u_type()) =~= w_type());
    assert(lower(u_xadd()) =~= w_xadd());
    assert(lower(u_xrange()) =~= w_xrange());
    assert(lower(u_xread()) =~= w_xread());
    assert(lower(w_ping()) =~= w_ping());
    assert(lower(w_echo()) =~= w_echo());
    assert(lower(w_set()) =~= w_set());
    assert(lower(w_px()) =~= w_px());
    assert(lower(w_get()) =~= w_get());
    assert(lower(w_info()) =~= w_info());
    assert(lower(w_replication()) =~= w_replication());
    assert(lower(w_replconf()) =~= w_replconf());
    assert(lower(w_listening_port()) =~= w_listening_port());
    assert(lower(w_capa()) =~= w_capa());
    assert(lower(w_getack()) =~= w_getack());
    assert(lower(w_ack()) =~= w_ack());
    assert(lower(w_psync()) =~= w_psync());
    assert(lower(w_wait()) =~= w_wait());
    assert(lower(w_config()) =~= w_config());
    assert(lower(w_dir()) =~= w_dir());
    assert(lower(w_dbfilename()) =~= w_dbfilename());
    assert(lower(w_keys()) =~= w_keys());
    assert(lower(w_type()) =~= w_type());
    assert(lower(w_xadd()) =~= w_xadd());
    assert(lower(w_xrange()) =~= w_xrange());
    assert(lower(w_xread()) =~= w_xread());
    assert(lower(w_block()) =~= w_block());
    assert(lower(w_streams()) =~= w_streams());
}

/// A command, if any.
pub open spec fn command_opt(r: Option<Command>) -> Option<CommandTerm> {
    match r {
        Some(c) => Some(c@),
        None => None,
    }
}

/// An ID, explicit or bare, as `parse_id` reads it.
fn parse_id_exec(s: &[u8], dflt: u64) -> (r: Option<StreamEntryID>)
    ensures
        r == parse_id(s@, dflt),
{
    match find_dash(s) {
        Some((a, b)) => match (parse_decimal(a), parse_decimal(b)) {
            (Some(m), Some(q)) => Some(StreamEntryID { millis: m, seq_num: q }),
            _ => None,
        },
        None => match parse_decimal(s) {
            Some(m) => Some(StreamEntryID { millis: m, seq_num: dflt }),
            None => None,
        },
    }
}

fn parse_req_id_exec(s: &[u8]) -> (r: Option<Option<ReqStreamEntryID>>)
    ensures
        r == parse_req_id(s@),
{
    if s.len() == 1 && s[0] == 42u8 {
        assert(s@ =~= seq![42u8]);
        return Some(None);
    }
    assert(s@ != seq![42u8]) by {
        if s@ == seq![42u8] {
            assert(s@.len() == 1 && s@[0] == 42u8);
        }
    }
    match find_dash(s) {
        Some((a, b)) => match parse_decimal(a) {
            Some(m) => {
                if b.len() == 1 && b[0] == 42u8 {
                    assert(b@ =~= seq![42u8]);
                    Some(Some(ReqStreamEntryID { millis: m, seq_num: None }))
                } else {
                    assert(b@ != seq![42u8]) by {
                        if b@ == seq![42u8] {
                            assert(b@.len() == 1 && b@[0] == 42u8);
                        }
                    }
                    match parse_decimal(b) {
                        Some(q) => Some(Some(ReqStreamEntryID { millis: m, seq_num: Some(q) })),
                        None => None,
                    }
                }
            },
            None => None,
        },
        None => None,
    }
}

fn parse_set_args(rest: &[Vec<u8>]) -> (r: Option<Command>)
    ensures
        command_opt(r) == parse_set(byte_views(rest@)),
{
    let ghost v = byte_views(rest@);
    if rest.len() == 2 {
        Some(Command::SetKey { key: copy_bytes(&rest[0]), value: copy_bytes(&rest[1]), px: None })
    } else if rest.len() == 4 && is_word(rest[2].as_slice(), word_px().as_slice()) {
        match parse_decimal(rest[3].as_slice()) {
            Some(ms) => Some(
                Command::SetKey { key: copy_bytes(&rest[0]), value: copy_bytes(&rest[1]), px: Some(ms) },
            ),
            None => None,
        }
    } else {
        None
    }
}

fn parse_capa_args(rest: &[Vec<u8>]) -> (r: Option<Command>)
    requires
        rest@.len() > 0,
        lower(rest@[0]@) == w_capa(),
    ensures
        command_opt(r) == parse_replconf(byte_views(rest@)),
{
    let ghost v = byte_views(rest@);
    assert(lower(v[0]) == w_capa());
    assert(lower(v[0]) != w_listening_port()) by {
        assert(w_capa().len() != w_listening_port().len());
    }
    if rest.len() % 2 != 0 {
        return None;
    }
    let n = rest.len() / 2;
    let mut caps: Vec<Vec<u8>> = Vec::new();
    let mut i: usize = 0;
    assert(rest@.len() == 2 * n);
    while i < n
        invariant
            v == byte_views(rest@),
            n == rest@.len() / 2,
            rest@.len() == 2 * n,
            rest@.len() <= usize::MAX,
            rest@.len() > 0,
            lower(v[0]) == w_capa(),
            lower(v[0]) != w_listening_port(),
            rest@.len() % 2 == 0,
            0 <= i <= n,
            forall|j: int| 0 <= j < i ==> lower(#[trigger] v[2 * j]) == w_capa(),
            byte_views(caps@) == Seq::new(i as nat, |j: int| v[2 * j + 1]),
        decreases n - i,
    {
        if !is_word(rest[2 * i].as_slice(), word_capa().as_slice()) {
            assert(!capa_list(v)) by {
                assert(lower(v[2 * (i as int)]) != w_capa());
            }
            return None;
        }
        let c = copy_bytes(&rest[2 * i + 1]);
        let ghost prev = caps@;
        assert(c@ == v[2 * i + 1]);
        caps.push(c);
        assert(caps@ == prev.push(c));
        assert(byte_views(caps@) =~= byte_views(prev).push(c@));
        i = i + 1;
        assert(byte_views(caps@) =~= Seq::new(i as nat, |j: int| v[2 * j + 1]));
    }
    Some(Command::ReplConf(ReplConfArg::Capa(caps)))
}

fn parse_replconf_args(rest: &[Vec<u8>]) -> (r: Option<Command>)
    ensures
        command_opt(r) == parse_replconf(byte_views(rest@)),
{
    let ghost v = byte_views(rest@);
    if rest.len() == 0 {
        return None;
    }
    proof {
        lemma_verbs();
    }
    let sub = rest[0].as_slice();
    if is_word(sub, word_listening_port().as_slice()) {
        if rest.len() == 2 {
            match parse_decimal(rest[1].as_slice()) {
                Some(p) => {
                    if p <= 65535 {
                        Some(Command::ReplConf(ReplConfArg::ListeningPort(p as u16)))
                    } else {
                        None
                    }
                },
                None => None,
            }
        } else {
            None
        }
    } else if is_word(sub, word_capa().as_slice()) {
        parse_capa_args(rest)
    } else if is_word(sub, word_getack().as_slice()) {
        if rest.len() == 2 && rest[1].len() == 1 && rest[1][0] == 42u8 {
            assert(v[1] =~= seq![42u8]);
            Some(Command::ReplConf(ReplConfArg::GetAck))
        } else {
            assert(!(rest@.len() == 2 && v[1] == seq![42u8])) by {
                if rest@.len() == 2 && v[1] == seq![42u8] {
                    assert(v[1].len() == 1 && v[1][0] == 42u8);
                }
            }
            None
        }
    } else if is_word(sub, word_ack().as_slice()) {
        if rest.len() == 2 {
            match parse_decimal(rest[1].as_slice()) {
                Some(n) => Some(Command::ReplConf(ReplConfArg::Ack(n))),
                None => None,
            }
        } else {
            None
        }
    } else {
        None
    }
}

fn parse_psync_args(rest: &[Vec<u8>]) -> (r: Option<Command>)
    ensures
        command_opt(r) == parse_psync(byte_views(rest@)),
{
    let ghost v = byte_views(rest@);
    if rest.len() != 2 {
        return None;
    }
    let a = rest[0].as_slice();
    let repl_id = if a.len() == 1 && a[0] == 63u8 {
        assert(v[0] =~= seq![63u8]);
        None
    } else {
        assert(v[0] != seq![63u8]) by {
            if v[0] == seq![63u8] {
                assert(v[0].len() == 1 && v[0][0] == 63u8);
            }
        }
        if a.len() == 40 {
            Some(copy_bytes(&rest[0]))
        } else {
            return None;
        }
    };
    let b = rest[1].as_slice();
    let repl_offset = if b.len() == 2 && b[0] == 45u8 && b[1] == 49u8 {
        assert(v[1] =~= seq![45u8, 49u8]);
        None
    } else {
        assert(v[1] != seq![45u8, 49u8]) by {
            if v[1] == seq![45u8, 49u8] {
                assert(v[1].len() == 2 && v[1][0] == 45u8 && v[1][1] == 49u8);
            }
        }
        match parse_decimal(b) {
            Some(n) => Some(n),
            None => {
                return None;
            },
        }
    };
    Some(Command::PSync { repl_id, repl_offset })
}

fn parse_xadd_args(rest: &[Vec<u8>]) -> (r: Option<Command>)
    ensures
        command_opt(r) == parse_xadd(byte_views(rest@)),
{
    let ghost v = byte_views(rest@);
    if rest.len() < 2 || rest.len() % 2 != 0 {
        return None;
    }
    let entry_id = match parse_req_id_exec(rest[1].as_slice()) {
        Some(id) => id,
        None => {
            return None;
        },
    };
    let n = (rest.len() - 2) / 2;
    let mut data: Fields = Vec::new();
    let mut i: usize = 0;
    assert(rest@.len() == 2 * n + 2);
    while i < n
        invariant
            v == byte_views(rest@),
            rest@.len() >= 2,
            rest@.len() == 2 * n + 2,
            rest@.len() <= usize::MAX,
            n == (rest@.len() - 2) / 2,
            rest@.len() % 2 == 0,
            0 <= i <= n,
            fields_view(data@) == Seq::new(i as nat, |j: int| (v[2 * j + 2], v[2 * j + 3])),
        decreases n - i,
    {
        let f = copy_bytes(&rest[2 * i + 2]);
        let x = copy_bytes(&rest[2 * i + 3]);
        let ghost prev = data@;
        assert(f@ == v[2 * i + 2] && x@ == v[2 * i + 3]);
        data.push((f, x));
        assert(data@ == prev.push((f, x)));
        assert(fields_view(data@) =~= fields_view(prev).push((f@, x@)));
        i = i + 1;
        assert(fields_view(data@) =~= Seq::new(i as nat, |j: int| (v[2 * j + 2], v[2 * j + 3])));
    }
    Some(Command::XAdd { key: copy_bytes(&rest[0]), entry_id, data })
}

fn parse_xrange_args(rest: &[Vec<u8>]) -> (r: Option<Command>)
    ensures
        command_opt(r) == parse_xrange(byte_views(rest@)),
{
    let ghost v = byte_views(rest@);
    if rest.len() != 3 {
        return None;
    }
    let a = rest[1].as_slice();
    let start = if a.len() == 1 && a[0] == 45u8 {
        assert(v[1] =~= seq![45u8]);
        StreamEntryID { millis: 0, seq_num: 0 }
    } else {
        assert(v[1] != seq![45u8]) by {
            if v[1] == seq![45u8] {
                assert(v[1].len() == 1 && v[1][0] == 45u8);
            }
        }
        match parse_id_exec(a, 0) {
            Some(id) => id,
            None => {
                return None;
            },
        }
    };
    let b = rest[2].as_slice();
    let end = if b.len() == 1 && b[0] == 43u8 {
        assert(v[2] =~= seq![43u8]);
        StreamEntryID { millis: u64::MAX, seq_num: u64::MAX }
    } else {
        assert(v[2] != seq![43u8]) by {
            if v[2] == seq![43u8] {
                assert(v[2].len() == 1 && v[2][0] == 43u8);
            }
        }
        match parse_id_exec(b, u64::MAX) {
            Some(id) => id,
            None => {
                return None;
            },
        }
    };
    Some(Command::XRange { key: copy_bytes(&rest[0]), start, end })
}

fn parse_streams_args(t: &[Vec<u8>], block: Option<u64>) -> (r: Option<Command>)
    ensures
        command_opt(r) == parse_streams(byte_views(t@), block),
{
    let ghost v = byte_views(t@);
    if t.len() < 3 || t.len() % 2 != 1 || !is_word(t[0].as_slice(), word_streams().as_slice()) {
        return None;
    }
    let n = (t.len() - 1) / 2;
    let mut streams: Vec<XReadStreamArg> = Vec::new();
    let mut i: usize = 0;
    assert(t@.len() == 2 * n + 1);
    while i < n
        invariant
            v == byte_views(t@),
            t@.len() >= 3,
            t@.len() == 2 * n + 1,
            t@.len() <= usize::MAX,
            n == (t@.len() - 1) / 2,
            t@.len() % 2 == 1,
            0 <= i <= n,
            forall|j: int| 0 <= j < i ==> (#[trigger] parse_id(v[1 + n + j], 0)) is Some,
            streams_view(streams@) == Seq::new(i as nat, |j: int| (v[1 + j], parse_id(v[1 + n + j], 0)->0)),
        decreases n - i,
    {
        match parse_id_exec(t[1 + n + i].as_slice(), 0) {
            Some(start) => {
                let key = copy_bytes(&t[1 + i]);
                let ghost prev = streams@;
                let arg = XReadStreamArg { key, start };
                assert(key@ == v[1 + i]);
                streams.push(arg);
                assert(streams@ == prev.push(arg));
                assert(streams_view(streams@) =~= streams_view(prev).push((key@, start)));
                i = i + 1;
                assert(streams_view(streams@) =~= Seq::new(
                    i as nat,
                    |j: int| (v[1 + j], parse_id(v[1 + n + j], 0)->0),
                ));
            },
            None => {
                assert(parse_id(v[1 + n + i], 0) is None);
                return None;
            },
        }
    }
    Some(Command::XRead { block, streams })
}

fn parse_xread_args(rest: &[Vec<u8>]) -> (r: Option<Command>)
    ensures
        command_opt(r) == parse_xread(byte_views(rest@)),
{
    let ghost v = byte_views(rest@);
    if rest.len() >= 1 && is_word(rest[0].as_slice(), word_block().as_slice()) {
        if rest.len() >= 2 {
            match parse_decimal(rest[1].as_slice()) {
                Some(ms) => {
                    let t = vstd::slice::slice_subrange(rest, 2, rest.len());
                    assert(byte_views(t@) =~= v.subrange(2, v.len() as int));
                    parse_streams_args(t, Some(ms))
                },
                None => None,
            }
        } else {
            None
        }
    } else {
        parse_streams_args(rest, None)
    }
}

/// The command that an argument list stands for, if any.
fn parse_command(args: &Vec<Vec<u8>>) -> (r: Option<Command>)
    ensures
        command_opt(r) == parse_args(byte_views(args@)),
{
    let ghost v = byte_views(args@);
    proof {
        reveal(parse_args);
    }
    if args.len() == 0 {
        return None;
    }
    let verb = args[0].as_slice();
    let rest = vstd::slice::slice_subrange(args.as_slice(), 1, args.len());
    assert(byte_views(rest@) =~= v.subrange(1, v.len() as int));
    if is_word(verb, word_ping().as_slice()) {
        if rest.len() == 0 { Some(Command::Ping) } else { None }
    } else if is_word(verb, word_echo().as_slice()) {
        if rest.len() == 1 { Some(Command::Echo(copy_bytes(&rest[0]))) } else { None }
    } else if is_word(verb, word_set().as_slice()) {
        parse_set_args(rest)
    } else if is_word(verb, word_get().as_slice()) {
        if rest.len() == 1 { Some(Command::Get(copy_bytes(&rest[0]))) } else { None }
    } else if is_word(verb, word_info().as_slice()) {
        if rest.len() == 0 {
            Some(Command::Info(None))
        } else if rest.len() == 1 && is_word(rest[0].as_slice(), word_replication().as_slice()) {
            Some(Command::Info(Some(InfoArg::Replication)))
        } else {
            None
        }
    } else if is_word(verb, word_replconf().as_slice()) {
        parse_replconf_args(rest)
    } else if is_word(verb, word_psync().as_slice()) {
        parse_psync_args(rest)
    } else if is_word(verb, word_wait().as_slice()) {
        if rest.len() == 2 {
            match (parse_decimal(rest[0].as_slice()), parse_decimal(rest[1].as_slice())) {
                (Some(n), Some(t)) => Some(Command::Wait { repl_ack_num: n, timeout_dur: t }),
                _ => None,
            }
        } else {
            None
        }
    } else if is_word(verb, word_config().as_slice()) {
        if rest.len() == 2 && is_word(rest[0].as_slice(), word_get().as_slice()) && (is_word(
            rest[1].as_slice(),
            word_dir().as_slice(),
        ) || is_word(rest[1].as_slice(), word_dbfilename().as_slice())) {
            Some(Command::Config(ConfigArg::Get(copy_bytes(&rest[1]))))
        } else {
            None
        }
    } else if is_word(verb, word_keys().as_slice()) {
        if rest.len() == 1 { Some(Command::Keys) } else { None }
    } else if is_word(verb, word_type().as_slice()) {
        if rest.len() == 1 { Some(Command::LookupType(copy_bytes(&rest[0]))) } else { None }
    } else if is_word(verb, word_xadd().as_slice()) {
        parse_xadd_args(rest)
    } else if is_word(verb, word_xrange().as_slice()) {
        parse_xrange_args(rest)
    } else if is_word(verb, word_xread().as_slice()) {
        parse_xread_args(rest)
    } else {
        None
    }
}

/// What reading an array of bulk strings off the front of `s` gives.
pub open spec fn parse_bulk_frame(s: Seq<u8>) -> Result<(Seq<Seq<u8>>, Seq<u8>), CommandError> {
    match parse_value(s) {
        Err(e) => Err(CommandError::Decode(e)),
        Ok((t, rest)) => match bulk_args(t) {
            None => Err(CommandError::NotBulkStrings),
            Some(args) => Ok((args, rest)),
        },
    }
}

/// Reads an array of bulk strings off the front of `bytes`.
pub fn decode_array_of_bulkstrings(bytes: &[u8]) -> (r: Result<(Vec<Vec<u8>>, &[u8]), CommandError>)
    ensures
        match r {
            Ok((args, rest)) => parse_bulk_frame(bytes@) == Ok::<(Seq<Seq<u8>>, Seq<u8>), CommandError>(
                (byte_views(args@), rest@),
            ),
            Err(e) => parse_bulk_frame(bytes@) == Err::<(Seq<Seq<u8>>, Seq<u8>), CommandError>(e),
        },
        r matches Ok((_, rest)) ==> rest@.len() < bytes@.len(),
{
    let (value, rest) = match decode(bytes) {
        Ok(p) => p,
        Err(e) => {
            return Err(CommandError::Decode(e));
        },
    };
    let values = match value {
        RespValue::Array(values) => values,
        _ => {
            return Err(CommandError::NotBulkStrings);
        },
    };
    proof {
        lemma_terms_of(values@);
    }
    let ghost es = terms_of(values@);
    let mut arr: Vec<Vec<u8>> = Vec::new();
    let mut i: usize = 0;
    while i < values.len()
        invariant
            0 <= i <= values@.len(),
            es == terms_of(values@),
            parse_value(bytes@) == Ok::<(RespTerm, Seq<u8>), DecodeError>((RespTerm::Arr(es), rest@)),
            es.len() == values@.len(),
            forall|k: int| 0 <= k < values@.len() ==> #[trigger] es[k] == term_of(values@[k]),
            forall|k: int| 0 <= k < i ==> (#[trigger] es[k]) is Bulk,
            byte_views(arr@) == Seq::new(i as nat, |k: int| es[k]->Bulk_0),
        decreases values@.len() - i,
    {
        match &values[i] {
            RespValue::BulkString(x) => {
                let c = copy_bytes(x);
                let ghost prev = arr@;
                arr.push(c);
                assert(arr@ == prev.push(c));
                assert(byte_views(arr@) =~= byte_views(prev).push(c@));
                i = i + 1;
                assert(byte_views(arr@) =~= Seq::new(i as nat, |k: int| es[k]->Bulk_0));
            },
            _ => {
                assert(!(es[i as int] is Bulk));
                return Err(CommandError::NotBulkStrings);
            },
        }
    }
    Ok((arr, rest))
}

impl Command {
    /// Reads one command off the front of `bytes`, and returns it with what follows.
    pub fn from_bytes(bytes: &[u8]) -> (r: Result<(Command, &[u8]), CommandError>)
        ensures
            match r {
                Ok((c, rest)) => parse_frame(bytes@) == Ok::<(CommandTerm, Seq<u8>), CommandError>((c@, rest@)),
                Err(e) => parse_frame(bytes@) == Err::<(CommandTerm, Seq<u8>), CommandError>(e),
            },
            r matches Ok((_, rest)) ==> rest@.len() < bytes@.len(),
    {
        let (args, rest) = match decode_array_of_bulkstrings(bytes) {
            Ok(p) => p,
            Err(e) => {
                return Err(e);
            },
        };
        match parse_command(&args) {
            Some(c) => Ok((c, rest)),
            None => Err(CommandError::Invalid),
        }
    }
}

/// The ID argument of XADD as written.
pub open spec fn req_id_text(id: Option<ReqStreamEntryID>) -> Seq<u8> {
    match id {
        None => seq![42u8],
        Some(r) => match r.seq_num {
            None => decimal(r.millis as nat) + seq![45u8, 42u8],
            Some(q) => decimal(r.millis as nat) + seq![45u8] + decimal(q as nat),
        },
    }
}

pub open spec fn pairs_flat(data: Seq<(Seq<u8>, Seq<u8>)>) -> Seq<Seq<u8>> {
    Seq::new(2 * data.len(), |i: int| if i % 2 == 0 { data[i / 2].0 } else { data[i / 2].1 })
}

/// The bulk strings that a command is written as.
#[verifier::opaque]
pub open spec fn args_of(c: CommandTerm) -> Seq<Seq<u8>> {
    match c {
        CommandTerm::Ping => seq![u_ping()],
        CommandTerm::Echo(x) => seq![u_echo(), x],
        CommandTerm::SetKey { key, value, px } => match px {
            None => seq![u_set(), key, value],
            Some(ms) => seq![u_set(), key, value, w_px(), decimal(ms as nat)],
        },
        CommandTerm::Get(k) => seq![u_get(), k],
        CommandTerm::Info(a) => match a {
            None => seq![u_info()],
            Some(_) => seq![u_info(), w_replication()],
        },
        CommandTerm::ReplConf(a) => match a {
            ReplConfTerm::ListeningPort(p) => seq![u_replconf(), w_listening_port(), decimal(p as nat)],
            ReplConfTerm::Capa(cs) => seq![u_replconf()] + Seq::new(
                2 * cs.len(),
                |i: int| if i % 2 == 0 { w_capa() } else { cs[i / 2] },
            ),
            ReplConfTerm::GetAck => seq![u_replconf(), u_getack(), seq![42u8]],
            ReplConfTerm::Ack(n) => seq![u_replconf(), u_ack(), decimal(n as nat)],
        },
        CommandTerm::PSync { repl_id, repl_offset } => seq![
            u_psync(),
            match repl_id {
                Some(id) => id,
                None => seq![63u8],
            },
            match repl_offset {
                Some(n) => decimal(n as nat),
                None => seq![45u8, 49u8],
            },
        ],
        CommandTerm::Wait { repl_ack_num, timeout_dur } => seq![
            u_wait(),
            decimal(repl_ack_num as nat),
            decimal(timeout_dur as nat),
        ],
        CommandTerm::ConfigGet(k) => seq![u_config(), u_get(), k],
        CommandTerm::Keys => seq![u_keys(), seq![42u8]],
        CommandTerm::LookupType(k) => seq![u_type(), k],
        CommandTerm::XAdd { key, entry_id, data } => seq![u_xadd(), key, req_id_text(entry_id)]
            + pairs_flat(data),
        CommandTerm::XRange { key, start, end } => seq![
            u_xrange(),
            key,
            id_text(start.pair()),
            id_text(end.pair()),
        ],
        CommandTerm::XRead { block, streams } => seq![u_xread()] + match block {
            Some(ms) => seq![w_block(), decimal(ms as nat)],
            None => Seq::empty(),
        } + seq![w_streams()] + Seq::new(streams.len(), |i: int| streams[i].0) + Seq::new(
            streams.len(),
            |i: int| id_text(streams[i].1.pair()),
        ),
    }
}

/// The array of bulk strings that a command is sent as.
pub open spec fn command_term(c: CommandTerm) -> RespTerm {
    let a = args_of(c);
    RespTerm::Arr(Seq::new(a.len(), |i: int| RespTerm::Bulk(a[i])))
}

fn star() -> (r: Vec<u8>)
    ensures
        r@ == seq![42u8],
{
    let r = vec![42u8];
    assert(r@ =~= seq![42u8]);
    r
}

fn question_mark() -> (r: Vec<u8>)
    ensures
        r@ == seq![63u8],
{
    let r = vec![63u8];
    assert(r@ =~= seq![63u8]);
    r
}

fn minus_one() -> (r: Vec<u8>)
    ensures
        r@ == seq![45u8, 49u8],
{
    let r = vec![45u8, 49u8];
    assert(r@ =~= seq![45u8, 49u8]);
    r
}

fn push_decimal(v: &mut Vec<Vec<u8>>, n: u64)
    ensures
        byte_views(final(v)@) == byte_views(old(v)@).push(decimal(n as nat)),
{
    let d = decimal_bytes(n);
    let ghost prev = v@;
    v.push(d);
    assert(v@ == prev.push(d));
    assert(byte_views(v@) =~= byte_views(prev).push(d@));
}

fn push_bytes(v: &mut Vec<Vec<u8>>, b: Vec<u8>)
    ensures
        byte_views(final(v)@) == byte_views(old(v)@).push(b@),
{
    let ghost prev = v@;
    v.push(b);
    assert(v@ == prev.push(b));
    assert(byte_views(v@) =~= byte_views(prev).push(b@));
}

impl Command {
    /// The bulk strings that this command is written as.
    pub fn args(&self) -> (r: Vec<Vec<u8>>)
        ensures
            byte_views(r@) == args_of(self@),
    {
        proof {
            reveal(args_of);
        }
        let mut v: Vec<Vec<u8>> = Vec::new();
        match self {
            Command::Ping => {
                push_bytes(&mut v, upper_ping());
                assert(byte_views(v@) =~= args_of(self@));
            },
            Command::Echo(x) => {
                push_bytes(&mut v, upper_echo());
                push_bytes(&mut v, copy_bytes(x));
                assert(byte_views(v@) =~= args_of(self@));
            },
            Command::SetKey { key, value, px } => {
                push_bytes(&mut v, upper_set());
                push_bytes(&mut v, copy_bytes(key));
                push_bytes(&mut v, copy_bytes(value));
                match px {
                    Some(ms) => {
                        push_bytes(&mut v, word_px());
                        push_decimal(&mut v, *ms);
                    },
                    None => {},
                }
                assert(byte_views(v@) =~= args_of(self@));
            },
            Command::Get(k) => {
                push_bytes(&mut v, upper_get());
                push_bytes(&mut v, copy_bytes(k));
                assert(byte_views(v@) =~= args_of(self@));
            },
            Command::Info(a) => {
                push_bytes(&mut v, upper_info());
                if a.is_some() {
                    push_bytes(&mut v, word_replication());
                }
                assert(byte_views(v@) =~= args_of(self@));
            },
            Command::ReplConf(a) => {
                push_bytes(&mut v, upper_replconf());
                match a {
                    ReplConfArg::ListeningPort(p) => {
                        push_bytes(&mut v, word_listening_port());
                        push_decimal(&mut v, *p as u64);
                    },
                    ReplConfArg::Capa(cs) => {
                        let mut i: usize = 0;
                        while i < cs.len()
                            invariant
                                0 <= i <= cs@.len(),
                                byte_views(v@) == seq![u_replconf()] + Seq::new(
                                    2 * i as nat,
                                    |j: int| if j % 2 == 0 { w_capa() } else { byte_views(cs@)[j / 2] },
                                ),
                            decreases cs@.len() - i,
                        {
                            push_bytes(&mut v, word_capa());
                            push_bytes(&mut v, copy_bytes(&cs[i]));
                            i = i + 1;
                            assert(byte_views(v@) =~= seq![u_replconf()] + Seq::new(
                                2 * i as nat,
                                |j: int| if j % 2 == 0 { w_capa() } else { byte_views(cs@)[j / 2] },
                            ));
                        }
                    },
                    ReplConfArg::GetAck => {
                        push_bytes(&mut v, upper_getack());
                        push_bytes(&mut v, star());
                    },
                    ReplConfArg::Ack(n) => {
                        push_bytes(&mut v, upper_ack());
                        push_decimal(&mut v, *n);
                    },
                }
                assert(byte_views(v@) =~= args_of(self@));
            },
            Command::PSync { repl_id, repl_offset } => {
                push_bytes(&mut v, upper_psync());
                match repl_id {
                    Some(id) => push_bytes(&mut v, copy_bytes(id)),
                    None => push_bytes(&mut v, question_mark()),
                }
                match repl_offset {
                    Some(n) => push_decimal(&mut v, *n),
                    None => push_bytes(&mut v, minus_one()),
                }
                assert(byte_views(v@) =~= args_of(self@));
            },
            Command::Wait { repl_ack_num, timeout_dur } => {
                push_bytes(&mut v, upper_wait());
                push_decimal(&mut v, *repl_ack_num);
                push_decimal(&mut v, *timeout_dur);
                assert(byte_views(v@) =~= args_of(self@));
            },
            Command::Config(ConfigArg::Get(k)) => {
                push_bytes(&mut v, upper_config());
                push_bytes(&mut v, upper_get());
                push_bytes(&mut v, copy_bytes(k));
                assert(byte_views(v@) =~= args_of(self@));
            },
            Command::Keys => {
                push_bytes(&mut v, upper_keys());
                push_bytes(&mut v, star());
                assert(byte_views(v@) =~= args_of(self@));
            },
            Command::LookupType(k) => {
                push_bytes(&mut v, upper_type());
                push_bytes(&mut v, copy_bytes(k));
                assert(byte_views(v@) =~= args_of(self@));
            },
            Command::XAdd { key, entry_id, data } => {
                push_bytes(&mut v, upper_xadd());
                push_bytes(&mut v, copy_bytes(key));
                let id_bytes = match entry_id {
                    None => vec![42u8],
                    Some(r) => {
                        let mut b = decimal_bytes(r.millis);
                        b.push(45u8);
                        match r.seq_num {
                            None => {
                                b.push(42u8);
                            },
                            Some(q) => {
                                let mut d = decimal_bytes(q);
                                b.append(&mut d);
                            },
                        }
                        b
                    },
                };
                assert(id_bytes@ =~= req_id_text(*entry_id));
                push_bytes(&mut v, id_bytes);
                let ghost head = byte_views(v@);
                let mut i: usize = 0;
                while i < data.len()
                    invariant
                        0 <= i <= data@.len(),
                        byte_views(v@) == head + pairs_flat(fields_view(data@)).subrange(0, 2 * i),
                    decreases data@.len() - i,
                {
                    push_bytes(&mut v, copy_bytes(&data[i].0));
                    push_bytes(&mut v, copy_bytes(&data[i].1));
                    i = i + 1;
                    assert(byte_views(v@) =~= head + pairs_flat(fields_view(data@)).subrange(0, 2 * i));
                }
                assert(pairs_flat(fields_view(data@)).subrange(0, 2 * data@.len() as int) =~= pairs_flat(
                    fields_view(data@),
                ));
                assert(byte_views(v@) =~= args_of(self@));
            },
            Command::XRange { key, start, end } => {
                push_bytes(&mut v, upper_xrange());
                push_bytes(&mut v, copy_bytes(key));
                push_bytes(&mut v, start.as_bytes());
                push_bytes(&mut v, end.as_bytes());
                assert(byte_views(v@) =~= args_of(self@));
            },
            Command::XRead { block, streams } => {
                push_bytes(&mut v, upper_xread());
                match block {
                    Some(ms) => {
                        push_bytes(&mut v, word_block());
                        push_decimal(&mut v, *ms);
                    },
                    None => {},
                }
                push_bytes(&mut v, word_streams());
                let ghost head = byte_views(v@);
                let ghost sv = streams_view(streams@);
                let mut i: usize = 0;
                while i < streams.len()
                    invariant
                        0 <= i <= streams@.len(),
                        sv == streams_view(streams@),
                        byte_views(v@) == head + Seq::new(i as nat, |j: int| sv[j].0),
                    decreases streams@.len() - i,
                {
                    push_bytes(&mut v, copy_bytes(&streams[i].key));
                    i = i + 1;
                    assert(byte_views(v@) =~= head + Seq::new(i as nat, |j: int| sv[j].0));
                }
                let ghost mid = byte_views(v@);
                let mut i: usize = 0;
                while i < streams.len()
                    invariant
                        0 <= i <= streams@.len(),
                        sv == streams_view(streams@),
                        byte_views(v@) == mid + Seq::new(i as nat, |j: int| id_text(sv[j].1.pair())),
                    decreases streams@.len() - i,
                {
                    push_bytes(&mut v, streams[i].start.as_bytes());
                    i = i + 1;
                    assert(byte_views(v@) =~= mid + Seq::new(i as nat, |j: int| id_text(sv[j].1.pair())));
                }
                assert(byte_views(v@) =~= args_of(self@));
            },
        }
        v
    }

    /// The wire encoding of this command: an array of bulk strings.
    pub fn to_bytes(&self) -> (r: Vec<u8>)
        ensures
            r@ == crate::resp::encode(command_term(self@)),
    {
        let args = self.args();
        let ghost a = byte_views(args@);
        let mut values: Vec<RespValue> = Vec::new();
        let mut i: usize = 0;
        while i < args.len()
            invariant
                0 <= i <= args@.len(),
                a == byte_views(args@),
                terms_of(values@) == Seq::new(i as nat, |j: int| RespTerm::Bulk(a[j])),
            decreases args@.len() - i,
        {
            let b = copy_bytes(&args[i]);
            let ghost prev = values@;
            let bv = RespValue::BulkString(b);
            values.push(bv);
            assert(values@.subrange(0, values@.len() - 1) =~= prev);
            assert(b@ == a[i as int]);
            assert(values@[values@.len() - 1] == bv);
            assert(term_of(bv) == RespTerm::Bulk(a[i as int]));
            assert(terms_of(values@) == terms_of(prev).push(RespTerm::Bulk(a[i as int])));
            i = i + 1;
            assert(terms_of(values@) =~= Seq::new(i as nat, |j: int| RespTerm::Bulk(a[j])));
        }
        let arr = RespValue::Array(values);
        arr.to_bytes()
    }
}

proof fn lemma_words_distinct()
    ensures
        w_ping() != w_echo(),
        w_ping() != w_set(),
        w_ping() != w_get(),
        w_ping() != w_info(),
        w_ping() != w_replconf(),
        w_ping() != w_psync(),
        w_ping() != w_wait(),
        w_ping() != w_config(),
        w_ping() != w_keys(),
        w_ping() != w_type(),
        w_ping() != w_xadd(),
        w_ping() != w_xrange(),
        w_ping() != w_xread(),
        w_echo() != w_set(),
        w_echo() != w_get(),
        w_echo() != w_info(),
        w_echo() != w_replconf(),
        w_echo() != w_psync(),
        w_echo() != w_wait(),
        w_echo() != w_config(),
        w_echo() != w_keys(),
        w_echo() != w_type(),
        w_echo() != w_xadd(),
        w_echo() != w_xrange(),
        w_echo() != w_xread(),
        w_set() != w_get(),
        w_set() != w_info(),
        w_set() != w_replconf(),
        w_set() != w_psync(),
        w_set() != w_wait(),
        w_set() != w_config(),
        w_set() != w_keys(),
        w_set() != w_type(),
        w_set() != w_xadd(),
        w_set() != w_xrange(),
        w_set() != w_xread(),
        w_get() != w_info(),
        w_get() != w_replconf(),
        w_get() != w_psync(),
        w_get() != w_wait(),
        w_get() != w_config(),
        w_get() != w_keys(),
        w_get() != w_type(),
        w_get() != w_xadd(),
        w_get() != w_xrange(),
        w_get() != w_xread(),
        w_info() != w_replconf(),
        w_info() != w_psync(),
        w_info() != w_wait(),
        w_info() != w_config(),
        w_info() != w_keys(),
        w_info() != w_type(),
        w_info() != w_xadd(),
        w_info() != w_xrange(),
        w_info() != w_xread(),
        w_replconf() != w_psync(),
        w_replconf() != w_wait(),
        w_replconf() != w_config(),
        w_replconf() != w_keys(),
        w_replconf() != w_type(),
        w_replconf() != w_xadd(),
        w_replconf() != w_xrange(),
        w_replconf() != w_xread(),
        w_psync() != w_wait(),
        w_psync() != w_config(),
        w_psync() != w_keys(),
        w_psync() != w_type(),
        w_psync() != w_xadd(),
        w_psync() != w_xrange(),
        w_psync() != w_xread(),
        w_wait() != w_config(),
        w_wait() != w_keys(),
        w_wait() != w_type(),
        w_wait() != w_xadd(),
        w_wait() != w_xrange(),
        w_wait() != w_xread(),
        w_config() != w_keys(),
        w_config() != w_type(),
        w_config() != w_xadd(),
        w_config() != w_xrange(),
        w_config() != w_xread(),
        w_keys() != w_type(),
        w_keys() != w_xadd(),
        w_keys() != w_xrange(),
        w_keys() != w_xread(),
        w_type() != w_xadd(),
        w_type() != w_xrange(),
        w_type() != w_xread(),
        w_xadd() != w_xrange(),
        w_xadd() != w_xread(),
        w_xrange() != w_xread(),
        w_listening_port() != w_capa(),
        w_listening_port() != w_getack(),
        w_listening_port() != w_ack(),
        w_capa() != w_getack(),
        w_capa() != w_ack(),
        w_getack() != w_ack(),
        w_dir() != w_dbfilename(),
        w_block() != w_streams(),
{
    assert(w_ping()[0] != w_echo()[0]);
    assert(w_ping().len() != w_set().len());
    assert(w_ping().len() != w_get().len());
    assert(w_ping()[0] != w_info()[0]);
    assert(w_ping().len() != w_replconf().len());
    assert(w_ping().len() != w_psync().len());
    assert(w_ping()[0] != w_wait()[0]);
    assert(w_ping().len() != w_config().len());
    assert(w_ping()[0] != w_keys()[0]);
    assert(w_ping()[0] != w_type()[0]);
    assert(w_ping()[0] != w_xadd()[0]);
    assert(w_ping().len() != w_xrange().len());
    assert(w_ping().len() != w_xread().len());
    assert(w_echo().len() != w_set().len());
    assert(w_echo().len() != w_get().len());
    assert(w_echo()[0] != w_info()[0]);
    assert(w_echo().len() != w_replconf().len());
    assert(w_echo().len() != w_psync().len());
    assert(w_echo()[0] != w_wait()[0]);
    assert(w_echo().len() != w_config().len());
    assert(w_echo()[0] != w_keys()[0]);
    assert(w_echo()[0] != w_type()[0]);
    assert(w_echo()[0] != w_xadd()[0]);
    assert(w_echo().len() != w_xrange().len());
    assert(w_echo().len() != w_xread().len());
    assert(w_set()[0] != w_get()[0]);
    assert(w_set().len() != w_info().len());
    assert(w_set().len() != w_replconf().len());
    assert(w_set().len() != w_psync().len());
    assert(w_set().len() != w_wait().len());
    assert(w_set().len() != w_config().len());
    assert(w_set().len() != w_keys().len());
    assert(w_set().len() != w_type().len());
    assert(w_set().len() != w_xadd().len());
    assert(w_set().len() != w_xrange().len());
    assert(w_set().len() != w_xread().len());
    assert(w_get().len() != w_info().len());
    assert(w_get().len() != w_replconf().len());
    assert(w_get().len() != w_psync().len());
    assert(w_get().len() != w_wait().len());
    assert(w_get().len() != w_config().len());
    assert(w_get().len() != w_keys().len());
    assert(w_get().len() != w_type().len());
    assert(w_get().len() != w_xadd().len());
    assert(w_get().len() != w_xrange().len());
    assert(w_get().len() != w_xread().len());
    assert(w_info().len() != w_replconf().len());
    assert(w_info().len() != w_psync().len());
    assert(w_info()[0] != w_wait()[0]);
    assert(w_info().len() != w_config().len());
    assert(w_info()[0] != w_keys()[0]);
    assert(w_info()[0] != w_type()[0]);
    assert(w_info()[0] != w_xadd()[0]);
    assert(w_info().len() != w_xrange().len());
    assert(w_info().len() != w_xread().len());
    assert(w_replconf().len() != w_psync().len());
    assert(w_replconf().len() != w_wait().len());
    assert(w_replconf().len() != w_config().len());
    assert(w_replconf().len() != w_keys().len());
    assert(w_replconf().len() != w_type().len());
    assert(w_replconf().len() != w_xadd().len());
    assert(w_replconf().len() != w_xrange().len());
    assert(w_replconf().len() != w_xread().len());
    assert(w_psync().len() != w_wait().len());
    assert(w_psync().len() != w_config().len());
    assert(w_psync().len() != w_keys().len());
    assert(w_psync().len() != w_type().len());
    assert(w_psync().len() != w_xadd().len());
    assert(w_psync().len() != w_xrange().len());
    assert(w_psync()[0] != w_xread()[0]);
    assert(w_wait().len() != w_config().len());
    assert(w_wait()[0] != w_keys()[0]);
    assert(w_wait()[0] != w_type()[0]);
    assert(w_wait()[0] != w_xadd()[0]);
    assert(w_wait().len() != w_xrange().len());
    assert(w_wait().len() != w_xread().len());
    assert(w_config().len() != w_keys().len());
    assert(w_config().len() != w_type().len());
    assert(w_config().len() != w_xadd().len());
    assert(w_config()[0] != w_xrange()[0]);
    assert(w_config().len() != w_xread().len());
    assert(w_keys()[0] != w_type()[0]);
    assert(w_keys()[0] != w_xadd()[0]);
    assert(w_keys().len() != w_xrange().len());
    assert(w_keys().len() != w_xread().len());
    assert(w_type()[0] != w_xadd()[0]);
    assert(w_type().len() != w_xrange().len());
    assert(w_type().len() != w_xread().len());
    assert(w_xadd().len() != w_xrange().len());
    assert(w_xadd().len() != w_xread().len());
    assert(w_xrange().len() != w_xread().len());
    assert(w_listening_port().len() != w_capa().len());
    assert(w_listening_port().len() != w_getack().len());
    assert(w_listening_port().len() != w_ack().len());
    assert(w_capa().len() != w_getack().len());
    assert(w_capa().len() != w_ack().len());
    assert(w_getack().len() != w_ack().len());
    assert(w_dir().len() != w_dbfilename().len());
    assert(w_block().len() != w_streams().len());
}

/// The commands that the codec carries faithfully: a replication ID has 40
/// bytes, a capability list and a stream list are not empty, a configuration
/// key is `dir` or `dbfilename`, and every argument fits in memory.
pub open spec fn command_wf(c: CommandTerm) -> bool {
    &&& args_of(c).len() <= usize::MAX
    &&& forall|i: int| 0 <= i < args_of(c).len() ==> (#[trigger] args_of(c)[i]).len() <= usize::MAX
    &&& match c {
        CommandTerm::PSync { repl_id, .. } => repl_id matches Some(id) ==> id.len() == 40,
        CommandTerm::ReplConf(ReplConfTerm::Capa(cs)) => cs.len() >= 1,
        CommandTerm::ConfigGet(k) => lower(k) == w_dir() || lower(k) == w_dbfilename(),
        CommandTerm::XRead { streams, .. } => streams.len() >= 1,
        _ => true,
    }
}

proof fn lemma_split_dash(d: Seq<u8>, t: Seq<u8>)
    requires
        crate::utils::all_digits(d),
    ensures
        split_dash(d + seq![45u8] + t) == Some((d, t)),
{
    let s = d + seq![45u8] + t;
    let n = d.len() as int;
    assert(crate::utils::dash_at(s, n)) by {
        assert forall|j: int| 0 <= j < n implies s[j] != 45u8 by {
            assert(s[j] == d[j]);
            assert(crate::utils::is_digit(d[j]));
        }
    }
    let i = choose|i: int| crate::utils::dash_at(s, i);
    assert(i == n) by {
        if i < n {
            assert(s[i] == d[i]);
            assert(crate::utils::is_digit(d[i]));
        }
    }
    assert(s.subrange(0, n) =~= d);
    assert(s.subrange(n + 1, s.len() as int) =~= t);
}

proof fn lemma_parse_id_text(id: StreamEntryID, dflt: u64)
    ensures
        parse_id(id_text(id.pair()), dflt) == Some(id),
        id_text(id.pair()).len() >= 3,
{
    crate::utils::lemma_decimal_digits(id.millis as nat);
    crate::utils::lemma_decimal_digits(id.seq_num as nat);
    crate::utils::lemma_parse_decimal(id.millis);
    crate::utils::lemma_parse_decimal(id.seq_num);
    lemma_split_dash(decimal(id.millis as nat), decimal(id.seq_num as nat));
}

proof fn lemma_parse_req_id_text(id: Option<ReqStreamEntryID>)
    ensures
        parse_req_id(req_id_text(id)) == Some(id),
{
    match id {
        None => {},
        Some(r) => {
            crate::utils::lemma_decimal_digits(r.millis as nat);
            crate::utils::lemma_parse_decimal(r.millis);
            assert(req_id_text(id).len() >= 3);
            match r.seq_num {
                None => {
                    assert(req_id_text(id) =~= decimal(r.millis as nat) + seq![45u8] + seq![42u8]);
                    lemma_split_dash(decimal(r.millis as nat), seq![42u8]);
                },
                Some(q) => {
                    crate::utils::lemma_decimal_digits(q as nat);
                    crate::utils::lemma_parse_decimal(q);
                    lemma_split_dash(decimal(r.millis as nat), decimal(q as nat));
                    assert(decimal(q as nat) != seq![42u8]) by {
                        assert(crate::utils::is_digit(decimal(q as nat)[0]));
                    }
                },
            }
        },
    }
}

proof fn lemma_parse_args_ping(c: CommandTerm)
    requires
        command_wf(c),
        c is Ping,
    ensures
        parse_args(args_of(c)) == Some(c),
{
    reveal(parse_args);
    reveal(args_of);
    lemma_verbs();
    lemma_words_distinct();
    let a = args_of(c);
    let rest = a.subrange(1, a.len() as int);
    match c {
        CommandTerm::Ping => {
            assert(rest =~= Seq::<Seq<u8>>::empty());
        },
        _ => {},
    }
}

proof fn lemma_parse_args_echo(c: CommandTerm)
    requires
        command_wf(c),
        c is Echo,
    ensures
        parse_args(args_of(c)) == Some(c),
{
    reveal(parse_args);
    reveal(args_of);
    lemma_verbs();
    lemma_words_distinct();
    let a = args_of(c);
    let rest = a.subrange(1, a.len() as int);
    match c {
        CommandTerm::Echo(x) => {
            assert(rest =~= seq![x]);
        },
        _ => {},
    }
}

proof fn lemma_parse_args_set_key(c: CommandTerm)
    requires
        command_wf(c),
        c is SetKey,
    ensures
        parse_args(args_of(c)) == Some(c),
{
    reveal(parse_args);
    reveal(args_of);
    lemma_verbs();
    lemma_words_distinct();
    let a = args_of(c);
    let rest = a.subrange(1, a.len() as int);
    match c {
        CommandTerm::SetKey { key, value, px } => {
            match px {
                None => {
                    assert(rest =~= seq![key, value]);
                },
                Some(ms) => {
                    assert(rest =~= seq![key, value, w_px(), decimal(ms as nat)]);
                    crate::utils::lemma_parse_decimal(ms);
                },
            }
        },
        _ => {},
    }
}

proof fn lemma_parse_args_get(c: CommandTerm)
    requires
        command_wf(c),
        c is Get,
    ensures
        parse_args(args_of(c)) == Some(c),
{
    reveal(parse_args);
    reveal(args_of);
    lemma_verbs();
    lemma_words_distinct();
    let a = args_of(c);
    let rest = a.subrange(1, a.len() as int);
    match c {
        CommandTerm::Get(k) => {
            assert(rest =~= seq![k]);
        },
        _ => {},
    }
}

proof fn lemma_parse_args_info(c: CommandTerm)
    requires
        command_wf(c),
        c is Info,
    ensures
        parse_args(args_of(c)) == Some(c),
{
    reveal(parse_args);
    reveal(args_of);
    lemma_verbs();
    lemma_words_distinct();
    let a = args_of(c);
    let rest = a.subrange(1, a.len() as int);
    match c {
        CommandTerm::Info(arg) => {
            match arg {
                None => {
                    assert(rest =~= Seq::<Seq<u8>>::empty());
                },
                Some(InfoArg::Replication) => {
                    assert(a =~= seq![u_info(), w_replication()]);
                    assert(rest =~= seq![w_replication()]);
                    assert(lower(rest[0]) == w_replication());
                    assert(arg == Some(InfoArg::Replication));
                    assert(lower(a[0]) == w_info());
                    assert(parse_args(a) == Some(CommandTerm::Info(Some(InfoArg::Replication))));
                },
            }
        },
        _ => {},
    }
}

proof fn lemma_parse_args_repl_conf(c: CommandTerm)
    requires
        command_wf(c),
        c is ReplConf,
    ensures
        parse_args(args_of(c)) == Some(c),
{
    reveal(parse_args);
    reveal(args_of);
    lemma_verbs();
    lemma_words_distinct();
    let a = args_of(c);
    let rest = a.subrange(1, a.len() as int);
    match c {
        CommandTerm::ReplConf(arg) => {
            match arg {
                ReplConfTerm::ListeningPort(p) => {
                    assert(rest =~= seq![w_listening_port(), decimal(p as nat)]);
                    crate::utils::lemma_parse_decimal(p as u64);
                },
                ReplConfTerm::Capa(cs) => {
                    assert(rest =~= Seq::new(
                        2 * cs.len(),
                        |i: int| if i % 2 == 0 { w_capa() } else { cs[i / 2] },
                    ));
                    assert(rest[0] == w_capa());
                    assert(capa_list(rest)) by {
                        assert forall|i: int| 0 <= i < rest.len() / 2 implies lower(#[trigger] rest[2 * i])
                            == w_capa() by {
                            assert(rest[2 * i] == w_capa());
                        }
                    }
                    assert(Seq::new((rest.len() / 2) as nat, |i: int| rest[2 * i + 1]) =~= cs);
                },
                ReplConfTerm::GetAck => {
                    assert(rest =~= seq![u_getack(), seq![42u8]]);
                },
                ReplConfTerm::Ack(n) => {
                    assert(rest =~= seq![u_ack(), decimal(n as nat)]);
                    crate::utils::lemma_parse_decimal(n);
                },
            }
        },
        _ => {},
    }
}

proof fn lemma_parse_args_p_sync(c: CommandTerm)
    requires
        command_wf(c),
        c is PSync,
    ensures
        parse_args(args_of(c)) == Some(c),
{
    reveal(parse_args);
    reveal(args_of);
    lemma_verbs();
    lemma_words_distinct();
    let a = args_of(c);
    let rest = a.subrange(1, a.len() as int);
    match c {
        CommandTerm::PSync { repl_id, repl_offset } => {
            match repl_id {
                Some(id) => {
                    assert(id != seq![63u8]);
                },
                None => {},
            }
            match repl_offset {
                Some(n) => {
                    crate::utils::lemma_decimal_digits(n as nat);
                    crate::utils::lemma_parse_decimal(n);
                    assert(decimal(n as nat) != seq![45u8, 49u8]) by {
                        assert(crate::utils::is_digit(decimal(n as nat)[0]));
                    }
                },
                None => {},
            }
        },
        _ => {},
    }
}

proof fn lemma_parse_args_wait(c: CommandTerm)
    requires
        command_wf(c),
        c is Wait,
    ensures
        parse_args(args_of(c)) == Some(c),
{
    reveal(parse_args);
    reveal(args_of);
    lemma_verbs();
    lemma_words_distinct();
    let a = args_of(c);
    let rest = a.subrange(1, a.len() as int);
    match c {
        CommandTerm::Wait { repl_ack_num, timeout_dur } => {
            crate::utils::lemma_parse_decimal(repl_ack_num);
            crate::utils::lemma_parse_decimal(timeout_dur);
        },
        _ => {},
    }
}

proof fn lemma_parse_args_config_get(c: CommandTerm)
    requires
        command_wf(c),
        c is ConfigGet,
    ensures
        parse_args(args_of(c)) == Some(c),
{
    reveal(parse_args);
    reveal(args_of);
    lemma_verbs();
    lemma_words_distinct();
    let a = args_of(c);
    let rest = a.subrange(1, a.len() as int);
    match c {
        CommandTerm::ConfigGet(k) => {
            assert(rest =~= seq![u_get(), k]);
        },
        _ => {},
    }
}

proof fn lemma_parse_args_keys(c: CommandTerm)
    requires
        command_wf(c),
        c is Keys,
    ensures
        parse_args(args_of(c)) == Some(c),
{
    reveal(parse_args);
    reveal(args_of);
    lemma_verbs();
    lemma_words_distinct();
    let a = args_of(c);
    let rest = a.subrange(1, a.len() as int);
    match c {
        CommandTerm::Keys => {
            assert(rest =~= seq![seq![42u8]]);
        },
        _ => {},
    }
}

proof fn lemma_parse_args_lookup_type(c: CommandTerm)
    requires
        command_wf(c),
        c is LookupType,
    ensures
        parse_args(args_of(c)) == Some(c),
{
    reveal(parse_args);
    reveal(args_of);
    lemma_verbs();
    lemma_words_distinct();
    let a = args_of(c);
    let rest = a.subrange(1, a.len() as int);
    match c {
        CommandTerm::LookupType(k) => {
            assert(rest =~= seq![k]);
        },
        _ => {},
    }
}

proof fn lemma_parse_args_x_add(c: CommandTerm)
    requires
        command_wf(c),
        c is XAdd,
    ensures
        parse_args(args_of(c)) == Some(c),
{
    reveal(parse_args);
    reveal(args_of);
    lemma_verbs();
    lemma_words_distinct();
    let a = args_of(c);
    let rest = a.subrange(1, a.len() as int);
    match c {
        CommandTerm::XAdd { key, entry_id, data } => {
            assert(rest =~= seq![key, req_id_text(entry_id)] + pairs_flat(data));
            lemma_parse_req_id_text(entry_id);
            assert(Seq::new(((rest.len() - 2) / 2) as nat, |i: int| (rest[2 * i + 2], rest[2 * i + 3]))
                =~= data);
        },
        _ => {},
    }
}

proof fn lemma_parse_args_x_range(c: CommandTerm)
    requires
        command_wf(c),
        c is XRange,
    ensures
        parse_args(args_of(c)) == Some(c),
{
    reveal(parse_args);
    reveal(args_of);
    lemma_verbs();
    lemma_words_distinct();
    let a = args_of(c);
    let rest = a.subrange(1, a.len() as int);
    match c {
        CommandTerm::XRange { key, start, end } => {
            assert(rest =~= seq![key, id_text(start.pair()), id_text(end.pair())]);
            lemma_parse_id_text(start, 0);
            lemma_parse_id_text(end, u64::MAX);
        },
        _ => {},
    }
}

proof fn lemma_parse_args_x_read(c: CommandTerm)
    requires
        command_wf(c),
        c is XRead,
    ensures
        parse_args(args_of(c)) == Some(c),
{
    reveal(parse_args);
    reveal(args_of);
    lemma_verbs();
    lemma_words_distinct();
    let a = args_of(c);
    let rest = a.subrange(1, a.len() as int);
    match c {
        CommandTerm::XRead { block, streams } => {
            let t = streams_tail(streams);
            lemma_parse_streams_tail(streams, block);
            match block {
                Some(ms) => {
                    crate::utils::lemma_parse_decimal(ms);
                    assert(rest =~= seq![w_block(), decimal(ms as nat)] + t);
                    assert(rest.subrange(2, rest.len() as int) =~= t);
                },
                None => {
                    assert(rest =~= t);
                    assert(rest[0] == w_streams());
                },
            }
        },
        _ => {},
    }
}
/// `streams`, then the keys, then the IDs.
pub open spec fn streams_tail(streams: Seq<(Seq<u8>, StreamEntryID)>) -> Seq<Seq<u8>> {
    seq![w_streams()] + Seq::new(streams.len(), |i: int| streams[i].0) + Seq::new(
        streams.len(),
        |i: int| id_text(streams[i].1.pair()),
    )
}

proof fn lemma_parse_streams_tail(streams: Seq<(Seq<u8>, StreamEntryID)>, block: Option<u64>)
    requires
        streams.len() >= 1,
    ensures
        parse_streams(streams_tail(streams), block) == Some(CommandTerm::XRead { block, streams }),
{
    lemma_verbs();
    let n = streams.len();
    let keys = Seq::new(n, |i: int| streams[i].0);
    let ids = Seq::new(n, |i: int| id_text(streams[i].1.pair()));
    let t = streams_tail(streams);
    assert(t == seq![w_streams()] + keys + ids);
    assert(t.len() == 2 * n + 1);
    assert((t.len() - 1) / 2 == n);
    assert forall|i: int| 0 <= i < n implies #[trigger] parse_id(t[1 + n + i], 0) == Some(streams[i].1) by {
        assert(t[1 + n + i] == ids[i]);
        lemma_parse_id_text(streams[i].1, 0);
    }
    assert forall|i: int| 0 <= i < n implies t[1 + i] == streams[i].0 by {
        assert(t[1 + i] == keys[i]);
    }
    assert(Seq::new(n, |i: int| (t[1 + i], parse_id(t[1 + n + i], 0)->0)) =~= streams);
}

/// The arguments a command is written as read back as that command.
proof fn lemma_parse_args_of(c: CommandTerm)
    requires
        command_wf(c),
    ensures
        parse_args(args_of(c)) == Some(c),
{
    match c {
        CommandTerm::Ping { .. } => lemma_parse_args_ping(c),
        CommandTerm::Echo { .. } => lemma_parse_args_echo(c),
        CommandTerm::SetKey { .. } => lemma_parse_args_set_key(c),
        CommandTerm::Get { .. } => lemma_parse_args_get(c),
        CommandTerm::Info { .. } => lemma_parse_args_info(c),
        CommandTerm::ReplConf { .. } => lemma_parse_args_repl_conf(c),
        CommandTerm::PSync { .. } => lemma_parse_args_p_sync(c),
        CommandTerm::Wait { .. } => lemma_parse_args_wait(c),
        CommandTerm::ConfigGet { .. } => lemma_parse_args_config_get(c),
        CommandTerm::Keys { .. } => lemma_parse_args_keys(c),
        CommandTerm::LookupType { .. } => lemma_parse_args_lookup_type(c),
        CommandTerm::XAdd { .. } => lemma_parse_args_x_add(c),
        CommandTerm::XRange { .. } => lemma_parse_args_x_range(c),
        CommandTerm::XRead { .. } => lemma_parse_args_x_read(c),
    }
}

proof fn lemma_all_bulks_well_formed(a: Seq<Seq<u8>>)
    requires
        forall|i: int| 0 <= i < a.len() ==> (#[trigger] a[i]).len() <= usize::MAX,
    ensures
        crate::resp::all_well_formed(Seq::new(a.len(), |i: int| RespTerm::Bulk(a[i]))),
    decreases a.len(),
{
    let es = Seq::new(a.len(), |i: int| RespTerm::Bulk(a[i]));
    if a.len() > 0 {
        assert(crate::resp::well_formed(es[0]));
        let tail = a.subrange(1, a.len() as int);
        lemma_all_bulks_well_formed(tail);
        assert(es.subrange(1, es.len() as int) =~= Seq::new(tail.len(), |i: int| RespTerm::Bulk(tail[i])));
    }
}

/// Reading back the bytes a command is sent as gives that command, and
/// leaves what followed them untouched.
pub proof fn lemma_command_round_trip(c: CommandTerm, rest: Seq<u8>)
    requires
        command_wf(c),
    ensures
        parse_frame(crate::resp::encode(command_term(c)) + rest) == Ok::<(CommandTerm, Seq<u8>), CommandError>(
            (c, rest),
        ),
{
    let a = args_of(c);
    let es = Seq::new(a.len(), |i: int| RespTerm::Bulk(a[i]));
    lemma_all_bulks_well_formed(a);
    assert(command_term(c) == RespTerm::Arr(es));
    assert(crate::resp::well_formed(command_term(c)));
    crate::resp::lemma_round_trip(command_term(c), rest);
    assert forall|i: int| 0 <= i < es.len() implies (#[trigger] es[i]) is Bulk by {}
    assert(Seq::new(es.len(), |i: int| es[i]->Bulk_0) =~= a);
    assert(bulk_args(command_term(c)) == Some(a));
    lemma_parse_args_of(c);
}

} // verus!
