//! The server's decisions: the reply to each client command, the bytes a
//! master propagates and the offset it keeps, and what a replica does with
//! the commands its master sends.
use vstd::prelude::*;
use crate::command::{command_term, Command, ConfigArg, ReplConfArg};
use crate::db::{deadline, kind_name, kind_name_bytes, live, DbValue, RedisDb, RedisValueType};
use crate::resp::{encode, RespTerm, RespValue};
use crate::stream::{id_text, lists_entries, next_id, not_above_top_message, zero_id_message, Fields, ReqStreamEntryID, StreamEntryID, StreamError};
use crate::command::{CommandTerm, ReplConfTerm, XReadStreamArg};
use crate::utils::{lower, is_word, parse_decimal, parse_decimal_spec, split_by_clrf, line_split};
use vstd::slice::slice_subrange;
use crate::utils::{byte_views, copy_bytes, decimal, decimal_bytes};

verus! {

#[derive(Debug, Clone, Copy, PartialEq, Eq)]
pub enum RedisRole {
    Master,
    Slave,
}

/// A master's replication identity and byte offset, as a replica learns them.
pub struct MasterInfo {
    pub repl_id: Vec<u8>,
    pub repl_offset: u64,
}

impl MasterInfo {
    /// A master's identity (40 characters, chosen at start-up) at offset 0.
    pub fn new(repl_id: Vec<u8>) -> (r: Self)
        requires
            repl_id@.len() == 40,
        ensures
            r.repl_id@ == repl_id@,
            r.repl_offset == 0,
    {
        MasterInfo { repl_id, repl_offset: 0 }
    }
}

/// A server's role and the replication state it reports: for a master its
/// own identity and the bytes it propagated, for a replica its master's
/// identity and the bytes it consumed from its master.
pub struct RedisInfo {
    pub role: RedisRole,
    pub master_replid: Vec<u8>,
    pub master_repl_offset: u64,
}

impl RedisInfo {
    pub fn new(role: RedisRole, repl_id: Vec<u8>) -> (r: Self)
        requires
            repl_id@.len() == 40,
        ensures
            r.role == role,
            r.master_replid@ == repl_id@,
            r.master_repl_offset == 0,
    {
        RedisInfo { role, master_replid: repl_id, master_repl_offset: 0 }
    }
}

pub open spec fn role_name(role: RedisRole) -> Seq<u8> {
    match role {
        RedisRole::Master => seq![109u8, 97u8, 115u8, 116u8, 101u8, 114u8],
        RedisRole::Slave => seq![115u8, 108u8, 97u8, 118u8, 101u8],
    }
}

/// `role:<role>\nmaster_replid:<id>\nmaster_repl_offset:<n>`
pub open spec fn info_text(role: RedisRole, id: Seq<u8>, offset: u64) -> Seq<u8> {
    seq![114u8, 111u8, 108u8, 101u8, 58u8] + role_name(role) + seq![10u8] + seq![
        109u8, 97u8, 115u8, 116u8, 101u8, 114u8, 95u8, 114u8, 101u8, 112u8, 108u8, 105u8, 100u8, 58u8,
    ] + id + seq![10u8] + seq![
        109u8, 97u8, 115u8, 116u8, 101u8, 114u8, 95u8, 114u8, 101u8, 112u8, 108u8, 95u8, 111u8, 102u8,
        102u8, 115u8, 101u8, 116u8, 58u8,
    ] + decimal(offset as nat)
}

fn append(dst: &mut Vec<u8>, src: Vec<u8>)
    ensures
        final(dst)@ == old(dst)@ + src@,
{
    let mut s = src;
    dst.append(&mut s);
}

/// The payload of the INFO reply.
pub fn info_payload(role: RedisRole, repl_id: &Vec<u8>, offset: u64) -> (r: Vec<u8>)
    ensures
        r@ == info_text(role, repl_id@, offset),
{
    let mut r: Vec<u8> = vec![114u8, 111u8, 108u8, 101u8, 58u8];
    match role {
        RedisRole::Master => append(&mut r, vec![109u8, 97u8, 115u8, 116u8, 101u8, 114u8]),
        RedisRole::Slave => append(&mut r, vec![115u8, 108u8, 97u8, 118u8, 101u8]),
    }
    r.push(10u8);
    append(
        &mut r,
        vec![109u8, 97u8, 115u8, 116u8, 101u8, 114u8, 95u8, 114u8, 101u8, 112u8, 108u8, 105u8, 100u8, 58u8],
    );
    append(&mut r, copy_bytes(repl_id));
    r.push(10u8);
    append(
        &mut r,
        vec![
            109u8, 97u8, 115u8, 116u8, 101u8, 114u8, 95u8, 114u8, 101u8, 112u8, 108u8, 95u8, 111u8, 102u8,
            102u8, 115u8, 101u8, 116u8, 58u8,
        ],
    );
    append(&mut r, decimal_bytes(offset));
    assert(r@ =~= info_text(role, repl_id@, offset));
    r
}

/// `PONG`
pub open spec fn pong() -> Seq<u8> {
    seq![80u8, 79u8, 78u8, 71u8]
}

/// `OK`
pub open spec fn ok_text() -> Seq<u8> {
    seq![79u8, 75u8]
}

fn simple_string(v: Vec<u8>) -> (r: RespValue)
    ensures
        r@ == RespTerm::Simple(v@),
{
    RespValue::SimpleString(v)
}

/// A list of byte strings as an array of bulk strings.
pub open spec fn bulk_array(v: Seq<Seq<u8>>) -> RespTerm {
    RespTerm::Arr(Seq::new(v.len(), |i: int| RespTerm::Bulk(v[i])))
}

fn to_bulk_array(v: Vec<Vec<u8>>) -> (r: RespValue)
    ensures
        r@ == bulk_array(byte_views(v@)),
{
    let mut out: Vec<RespValue> = Vec::new();
    let mut i: usize = 0;
    while i < v.len()
        invariant
            0 <= i <= v@.len(),
            crate::resp::terms_of(out@) == Seq::new(i as nat, |j: int| RespTerm::Bulk(v@[j]@)),
        decreases v@.len() - i,
    {
        let b = copy_bytes(&v[i]);
        let ghost prev = out@;
        let bv = RespValue::BulkString(b);
        out.push(bv);
        assert(out@.subrange(0, out@.len() - 1) =~= prev);
        assert(out@[out@.len() - 1] == bv);
        assert(b@ == v@[i as int]@);
        assert(crate::resp::term_of(bv) == RespTerm::Bulk(v@[i as int]@));
        assert(crate::resp::terms_of(out@) == crate::resp::terms_of(prev).push(RespTerm::Bulk(v@[i as int]@)));
        i = i + 1;
        assert(crate::resp::terms_of(out@) =~= Seq::new(i as nat, |j: int| RespTerm::Bulk(v@[j]@)));
    }
    let ghost t = crate::resp::terms_of(out@);
    let r = RespValue::Array(out);
    assert(r@ == RespTerm::Arr(t));
    assert(t =~= Seq::new(byte_views(v@).len(), |i: int| RespTerm::Bulk(byte_views(v@)[i])));
    r
}

/// Stream entries as the nested reply `[[id, [f, v, ...]], ...]`.
pub open spec fn entries_term(es: Seq<(Vec<u8>, Vec<Vec<u8>>)>) -> RespTerm {
    RespTerm::Arr(
        Seq::new(
            es.len(),
            |i: int| RespTerm::Arr(seq![RespTerm::Bulk(es[i].0@), bulk_array(byte_views(es[i].1@))]),
        ),
    )
}

fn to_entries_reply(es: Vec<(Vec<u8>, Vec<Vec<u8>>)>) -> (r: RespValue)
    ensures
        r@ == entries_term(es@),
{
    let mut out: Vec<RespValue> = Vec::new();
    let mut i: usize = 0;
    while i < es.len()
        invariant
            0 <= i <= es@.len(),
            crate::resp::terms_of(out@) == Seq::new(
                i as nat,
                |j: int| RespTerm::Arr(seq![RespTerm::Bulk(es@[j].0@), bulk_array(byte_views(es@[j].1@))]),
            ),
        decreases es@.len() - i,
    {
        let id = copy_bytes(&es[i].0);
        let mut fields: Vec<Vec<u8>> = Vec::new();
        let mut k: usize = 0;
        while k < es[i].1.len()
            invariant
                0 <= i < es@.len(),
                0 <= k <= es@[i as int].1@.len(),
                byte_views(fields@) == byte_views(es@[i as int].1@).subrange(0, k as int),
            decreases es@[i as int].1@.len() - k,
        {
            let f = copy_bytes(&es[i].1[k]);
            let ghost prev = fields@;
            fields.push(f);
            assert(byte_views(fields@) =~= byte_views(prev).push(f@));
            k = k + 1;
            assert(byte_views(fields@) =~= byte_views(es@[i as int].1@).subrange(0, k as int));
        }
        assert(byte_views(es@[i as int].1@).subrange(0, k as int) =~= byte_views(es@[i as int].1@));
        let inner = to_bulk_array(fields);
        let mut pair: Vec<RespValue> = Vec::new();
        pair.push(RespValue::BulkString(id));
        pair.push(inner);
        let pv = RespValue::Array(pair);
        proof {
            crate::resp::lemma_terms_of(pair@);
            assert(crate::resp::terms_of(pair@) =~= seq![RespTerm::Bulk(es@[i as int].0@), bulk_array(byte_views(es@[i as int].1@))]);
        }
        let ghost prev = out@;
        out.push(pv);
        assert(out@.subrange(0, out@.len() - 1) =~= prev);
        assert(out@[out@.len() - 1] == pv);
        assert(pv@ == RespTerm::Arr(crate::resp::terms_of(pair@)));
        assert(crate::resp::terms_of(out@) == crate::resp::terms_of(prev).push(pv@));
        i = i + 1;
        assert(crate::resp::terms_of(out@) =~= Seq::new(
            i as nat,
            |j: int| RespTerm::Arr(seq![RespTerm::Bulk(es@[j].0@), bulk_array(byte_views(es@[j].1@))]),
        ));
    }
    let ghost t = crate::resp::terms_of(out@);
    let r = RespValue::Array(out);
    assert(r@ == RespTerm::Arr(t));
    assert(r@ =~= entries_term(es@));
    r
}

pub fn handle_ping() -> (r: RespValue)
    ensures
        r@ == RespTerm::Simple(pong()),
{
    let v = vec![80u8, 79u8, 78u8, 71u8];
    assert(v@ =~= pong());
    simple_string(v)
}

pub fn handle_echo(val: &Vec<u8>) -> (r: RespValue)
    ensures
        r@ == RespTerm::Bulk(val@),
{
    RespValue::BulkString(copy_bytes(val))
}

/// The GET reply: the value if the key holds a live string at `now`, else
/// the null bulk string; an expired string is removed.
pub fn handle_get(db: &mut RedisDb, key: &Vec<u8>, now: u64) -> (r: RespValue)
    requires
        old(db).wf(),
    ensures
        final(db).wf(),
        final(db).streams() == old(db).streams(),
        old(db).strings().contains_key(key@) && live(old(db).strings()[key@].expiry, now) ==> r@
            == RespTerm::Bulk(old(db).strings()[key@].value@) && final(db).strings() == old(db).strings(),
        !(old(db).strings().contains_key(key@) && live(old(db).strings()[key@].expiry, now)) ==> r@
            == RespTerm::Null,
        old(db).strings().contains_key(key@) && !live(old(db).strings()[key@].expiry, now)
            ==> final(db).strings() == old(db).strings().remove(key@),
        !old(db).strings().contains_key(key@) ==> final(db).strings() == old(db).strings(),
{
    match db.get(key, now) {
        Some(x) => RespValue::BulkString(x),
        None => RespValue::NullBulkString,
    }
}

/// The SET reply, `OK`, after storing the value with its deadline.
pub fn handle_set(db: &mut RedisDb, key: &Vec<u8>, value: &Vec<u8>, px: Option<u64>, now: u64) -> (r: RespValue)
    requires
        old(db).wf(),
    ensures
        final(db).wf(),
        final(db).streams() == old(db).streams(),
        r@ == RespTerm::Simple(ok_text()),
        final(db).strings().contains_key(key@),
        final(db).strings() == old(db).strings().insert(key@, final(db).strings()[key@]),
        final(db).strings()[key@].value@ == value@,
        final(db).strings()[key@].expiry == match px {
            Some(ms) => Some(deadline(now, ms)),
            None => None::<u64>,
        },
{
    db.set(key, copy_bytes(value), px, now);
    let v = vec![79u8, 75u8];
    assert(v@ =~= ok_text());
    simple_string(v)
}

/// The INFO reply.
pub fn handle_info(info: &RedisInfo) -> (r: RespValue)
    ensures
        r@ == RespTerm::Bulk(info_text(info.role, info.master_replid@, info.master_repl_offset)),
{
    RespValue::BulkString(info_payload(info.role, &info.master_replid, info.master_repl_offset))
}

/// The TYPE reply: `string`, `stream` or `none`.
pub fn handle_type(db: &mut RedisDb, key: &Vec<u8>, now: u64) -> (r: RespValue)
    requires
        old(db).wf(),
    ensures
        final(db).wf(),
        final(db).streams() == old(db).streams(),
        r@ == RespTerm::Simple(
            kind_name(
                if old(db).strings().contains_key(key@) && live(old(db).strings()[key@].expiry, now) {
                    Some(RedisValueType::String)
                } else if old(db).streams().contains_key(key@) {
                    Some(RedisValueType::Stream)
                } else {
                    None::<RedisValueType>
                },
            ),
        ),
{
    let t = db.lookup_type(key, now);
    simple_string(kind_name_bytes(t))
}

/// The XADD reply: the new ID, or the error that refused it.
pub fn handle_xadd(db: &mut RedisDb, key: &Vec<u8>, entry_id: Option<ReqStreamEntryID>, data: Fields, now: u64) -> (r: RespValue)
    requires
        old(db).wf(),
    ensures
        final(db).wf(),
        final(db).strings() == old(db).strings(),
        r@ is Bulk ==> final(db).streams().contains_key(key@) && r@->Bulk_0 == id_text(final(db).streams()[key@].last()),
        r@ is Error ==> final(db).streams() == old(db).streams() && (r@->Error_0 == zero_id_message()
            || r@->Error_0 == not_above_top_message()),
        r@ is Bulk || r@ is Error,
        r@ is Bulk <==> crate::stream::resolve_id(entry_id, old(db).top(key@), now) is Ok,
        r@ is Bulk ==> {
            &&& final(db).streams() == old(db).streams().insert(key@, final(db).streams()[key@])
            &&& crate::stream::resolve_id(entry_id, old(db).top(key@), now) == Ok::<(u64, u64), StreamError>(
                final(db).streams()[key@].last(),
            )
            &&& old(db).streams().contains_key(key@) ==> final(db).streams()[key@].entries()
                == old(db).streams()[key@].entries().insert(final(db).streams()[key@].last(), data)
            &&& !old(db).streams().contains_key(key@) ==> final(db).streams()[key@].entries()
                == Map::<(u64, u64), Fields>::empty().insert(final(db).streams()[key@].last(), data)
        },
        r@ is Error ==> (r@->Error_0 == zero_id_message() <==> crate::stream::resolve_id(entry_id, old(db).top(key@), now)
            == Err::<(u64, u64), StreamError>(StreamError::ZeroId)),
{
    match db.xadd(key, entry_id, data, now) {
        Ok(id) => RespValue::BulkString(id.as_bytes()),
        Err(e) => RespValue::SimpleError(e.message()),
    }
}

/// The XRANGE reply: `[[id, [field, value, ...]], ...]` in ID order.
pub fn handle_xrange(db: &RedisDb, key: &Vec<u8>, start: StreamEntryID, end: StreamEntryID) -> (r: RespValue)
    requires
        db.wf(),
    ensures
        exists|l: Seq<(Vec<u8>, Vec<Vec<u8>>)>|
            r@ == entries_term(l) && (db.streams().contains_key(key@) ==> lists_entries(
                l,
                db.streams()[key@].entries(),
                start.pair(),
                end.pair(),
            )) && (!db.streams().contains_key(key@) ==> l.len() == 0),
{
    let l = db.xrange(key, start, end);
    let ghost lv = l@;
    to_entries_reply(l)
}

/// The KEYS reply: every string key, each once.
pub fn handle_keys(db: &RedisDb) -> (r: RespValue)
    requires
        db.wf(),
    ensures
        exists|ks: Seq<Seq<u8>>|
            r@ == bulk_array(ks) && (forall|i: int| 0 <= i < ks.len() ==> db.strings().contains_key(#[trigger] ks[i]))
                && (forall|k: Seq<u8>| #[trigger] db.strings().contains_key(k) ==> ks.contains(k)),
{
    let keys = db.keys();
    let ghost ks = byte_views(keys@);
    proof {
        assert forall|k: Seq<u8>| #[trigger] db.strings().contains_key(k) implies ks.contains(k) by {
            let i = choose|i: int| 0 <= i < keys@.len() && keys@[i]@ == k;
            assert(ks[i] == k);
        }
    }
    to_bulk_array(keys)
}

/// The configured directory or file name that `key` asks for; empty when unset.
pub open spec fn config_value(key: Seq<u8>, dir: Option<Vec<u8>>, dbfilename: Option<Vec<u8>>) -> Seq<u8> {
    if lower(key) == crate::command::w_dir() {
        match dir {
            Some(d) => d@,
            None => Seq::<u8>::empty(),
        }
    } else {
        match dbfilename {
            Some(f) => f@,
            None => Seq::<u8>::empty(),
        }
    }
}

/// The CONFIG GET reply: the key, and the configured value or an empty string.
pub fn handle_config_get(key: &Vec<u8>, dir: &Option<Vec<u8>>, dbfilename: &Option<Vec<u8>>) -> (r: RespValue)
    ensures
        r@ == bulk_array(seq![key@, config_value(key@, *dir, *dbfilename)]),
{
    let dirw: Vec<u8> = vec![100u8, 105u8, 114u8];
    assert(dirw@ =~= crate::command::w_dir());
    let is_dir = is_word(key.as_slice(), dirw.as_slice());
    let value: Vec<u8> = if is_dir {
        match dir {
            Some(d) => copy_bytes(d),
            None => Vec::new(),
        }
    } else {
        match dbfilename {
            Some(f) => copy_bytes(f),
            None => Vec::new(),
        }
    };
    assert(value@ =~= config_value(key@, *dir, *dbfilename));
    let ghost want = seq![key@, value@];
    let mut v: Vec<Vec<u8>> = Vec::new();
    v.push(copy_bytes(key));
    v.push(value);
    assert(byte_views(v@) =~= want);
    let r = to_bulk_array(v);
    assert(r@ == bulk_array(want));
    r
}

/// The XREAD reply for what the streams hold: `None` when the read blocks and
/// nothing was found (the caller waits, then reads again).
pub fn xread_reply(data: Vec<(Vec<u8>, Vec<(Vec<u8>, Vec<Vec<u8>>)>)>, block: Option<u64>) -> (r: Option<RespValue>)
    ensures
        r is None <==> (block is Some && forall|i: int| 0 <= i < data@.len() ==> (#[trigger] data@[i]).1@.len() == 0),
        r matches Some(v) ==> v@ == RespTerm::Arr(
            Seq::new(
                data@.len(),
                |i: int| RespTerm::Arr(seq![RespTerm::Bulk(data@[i].0@), entries_term(data@[i].1@)]),
            ),
        ),
{
    let mut all_empty = true;
    let mut i: usize = 0;
    while i < data.len()
        invariant
            0 <= i <= data@.len(),
            all_empty == forall|j: int| 0 <= j < i ==> (#[trigger] data@[j]).1@.len() == 0,
        decreases data@.len() - i,
    {
        if data[i].1.len() != 0 {
            all_empty = false;
        }
        i = i + 1;
    }
    if block.is_some() && all_empty {
        return None;
    }
    let ghost dv = data@;
    let mut out: Vec<RespValue> = Vec::new();
    let mut rest = data;
    let mut taken: Vec<(Vec<u8>, Vec<(Vec<u8>, Vec<Vec<u8>>)>)> = Vec::new();
    let mut k: usize = 0;
    let n = rest.len();
    while k < n
        invariant
            n == dv.len(),
            0 <= k <= n,
            rest@ == dv.subrange(k as int, n as int),
            crate::resp::terms_of(out@) == Seq::new(
                k as nat,
                |j: int| RespTerm::Arr(seq![RespTerm::Bulk(dv[j].0@), entries_term(dv[j].1@)]),
            ),
        decreases n - k,
    {
        let (key, entries) = rest.remove(0);
        assert(rest@ =~= dv.subrange(k + 1, n as int));
        let ghost ev = entries@;
        let ghost kv = key@;
        let inner = to_entries_reply(entries);
        let mut pair: Vec<RespValue> = Vec::new();
        pair.push(RespValue::BulkString(key));
        pair.push(inner);
        proof {
            crate::resp::lemma_terms_of(pair@);
            assert(crate::resp::terms_of(pair@) =~= seq![RespTerm::Bulk(kv), entries_term(ev)]);
        }
        let pv = RespValue::Array(pair);
        let ghost prev = out@;
        out.push(pv);
        assert(out@.subrange(0, out@.len() - 1) =~= prev);
        assert(out@[out@.len() - 1] == pv);
        assert(crate::resp::terms_of(out@) == crate::resp::terms_of(prev).push(pv@));
        k = k + 1;
        assert(crate::resp::terms_of(out@) =~= Seq::new(
            k as nat,
            |j: int| RespTerm::Arr(seq![RespTerm::Bulk(dv[j].0@), entries_term(dv[j].1@)]),
        ));
    }
    let ghost t = crate::resp::terms_of(out@);
    let r = RespValue::Array(out);
    assert(r@ == RespTerm::Arr(t));
    Some(r)
}

/// A server's role and replication state, the database it serves, and its
/// configured snapshot location.
pub struct RedisState {
    pub info: RedisInfo,
    pub db: RedisDb,
    pub dir: Option<Vec<u8>>,
    pub dbfilename: Option<Vec<u8>>,
    /// Every byte a master propagated so far, in commit order.
    pub log: Ghost<Seq<u8>>,
}

/// What a connection does after a client command.
pub enum Outcome {
    /// Send this reply.
    Reply(RespValue),
    /// Send this reply, and write these bytes to every replica before the
    /// next mutation is committed.
    Propagate(RespValue, Vec<u8>),
    /// Send this reply, and wake the readers blocked on this stream key.
    Appended(RespValue, Vec<u8>),
    /// XREAD found nothing: wait up to this many milliseconds for an append,
    /// then execute the command again; when the time is up, reply with the
    /// null bulk string.
    Block(u64),
    /// WAIT for this many acknowledgements, at most this many milliseconds.
    Wait(u64, u64),
    /// PSYNC: send these bytes; the connection then carries propagated mutations.
    FullResync(Vec<u8>),
    /// Close the connection: this role does not serve the command.
    Close,
}

impl RedisState {
    /// A server of `role` with identity `repl_id` at offset 0.
    pub fn new(role: RedisRole, repl_id: Vec<u8>, db: RedisDb, dir: Option<Vec<u8>>, dbfilename: Option<Vec<u8>>) -> (r: Self)
        requires
            repl_id@.len() == 40,
            db.wf(),
        ensures
            r.wf(),
            r.info.role == role,
            r.info.master_replid@ == repl_id@,
            r.info.master_repl_offset == 0,
            r.db == db,
            r.dir == dir,
            r.dbfilename == dbfilename,
            r.log@ == Seq::<u8>::empty(),
    {
        RedisState { info: RedisInfo::new(role, repl_id), db, dir, dbfilename, log: Ghost(Seq::empty()) }
    }

    /// The database is well formed; a master's offset counts the bytes it
    /// propagated, held at the largest value.
    pub open spec fn wf(&self) -> bool {
        &&& self.db.wf()
        &&& self.info.role == RedisRole::Master ==> self.info.master_repl_offset == advanced(0, self.log@.len())
    }

    /// The bytes to write to every replica for a mutation, in commit order;
    /// the offset advances by their count. What replicas receive is thus
    /// always a prefix of the log of all propagated bytes.
    pub fn propagate(&mut self, cmd: &Command) -> (r: Vec<u8>)
        requires
            old(self).wf(),
        ensures
            final(self).wf(),
            r@ == encode(command_term(cmd@)),
            final(self).log@ == old(self).log@ + r@,
            final(self).info.master_repl_offset == advanced(old(self).info.master_repl_offset, r@.len()),
            final(self).info.role == old(self).info.role,
            final(self).info.master_replid == old(self).info.master_replid,
            final(self).db == old(self).db,
            final(self).dir == old(self).dir,
            final(self).dbfilename == old(self).dbfilename,
    {
        let bytes = cmd.to_bytes();
        let n = bytes.len() as u64;
        self.info.master_repl_offset = if self.info.master_repl_offset > u64::MAX - n {
            u64::MAX
        } else {
            self.info.master_repl_offset + n
        };
        self.log = Ghost(self.log@ + bytes@);
        bytes
    }

    /// Handles the command at the front of `buf`, sent by this replica's
    /// master. The offset advances by the bytes the command took, whatever
    /// the command; SET is applied; GETACK is answered with the offset
    /// including its own bytes. Returns the bytes taken and the answer.
    pub fn handle_cmd_from_master(&mut self, buf: &[u8], now: u64) -> (r: Result<(usize, Option<Vec<u8>>), crate::command::CommandError>)
        requires
            old(self).db.wf(),
        ensures
            final(self).db.wf(),
            final(self).info.master_repl_offset >= old(self).info.master_repl_offset,
            final(self).info.role == old(self).info.role,
            final(self).info.master_replid == old(self).info.master_replid,
            final(self).dir == old(self).dir,
            final(self).dbfilename == old(self).dbfilename,
            final(self).log == old(self).log,
            match r {
                Ok((n, reply)) => parse_frame_ok(buf@, n, reply, old(self).info.master_repl_offset, final(self).info.master_repl_offset)
                    && (crate::command::parse_frame(buf@) matches Ok((CommandTerm::SetKey { key, value, px }, _)) ==> {
                        &&& final(self).db.strings().contains_key(key)
                        &&& final(self).db.strings() == old(self).db.strings().insert(key, final(self).db.strings()[key])
                        &&& final(self).db.strings()[key].value@ == value
                        &&& final(self).db.strings()[key].expiry == match px {
                            Some(ms) => Some(deadline(now, ms)),
                            None => None::<u64>,
                        }
                    }) && (!(crate::command::parse_frame(buf@) matches Ok((CommandTerm::SetKey { .. }, _))) ==> final(self).db == old(self).db),
                Err(e) => crate::command::parse_frame(buf@) == Err::<(CommandTerm, Seq<u8>), crate::command::CommandError>(e)
                    && final(self).info.master_repl_offset == old(self).info.master_repl_offset
                    && final(self).db == old(self).db,
            },
    {
        let (cmd, rest) = match Command::from_bytes(buf) {
            Ok(p) => p,
            Err(e) => {
                return Err(e);
            },
        };
        let n = buf.len() - rest.len();
        let old_offset = self.info.master_repl_offset;
        self.info.master_repl_offset = if old_offset > u64::MAX - n as u64 {
            u64::MAX
        } else {
            old_offset + n as u64
        };
        let reply = match &cmd {
            Command::SetKey { key, value, px } => {
                self.db.set(key, copy_bytes(value), *px, now);
                None
            },
            Command::ReplConf(ReplConfArg::GetAck) => {
                let ack = Command::ReplConf(ReplConfArg::Ack(self.info.master_repl_offset));
                Some(ack.to_bytes())
            },
            _ => None,
        };
        Ok((n, reply))
    }
}

/// The offset `old` advanced by `n`, held at the largest value.
pub open spec fn advanced(old: u64, n: nat) -> u64 {
    if old + n > u64::MAX {
        u64::MAX
    } else {
        (old + n) as u64
    }
}

/// `buf` starts with a command of `n` bytes; the offset advanced by `n`; the
/// answer is an ACK of the new offset exactly when the command is GETACK.
pub open spec fn parse_frame_ok(buf: Seq<u8>, n: usize, reply: Option<Vec<u8>>, old: u64, new: u64) -> bool {
    &&& crate::command::parse_frame(buf) matches Ok((c, rest)) && n == buf.len() - rest.len() && new == advanced(
        old,
        n as nat,
    ) && (reply is Some <==> c == CommandTerm::ReplConf(ReplConfTerm::GetAck)) && (reply matches Some(b) ==> b@
        == encode(command_term(CommandTerm::ReplConf(ReplConfTerm::Ack(new)))))
}

/// The text of a FULLRESYNC reply: `FULLRESYNC <40-byte id> <offset>`.
pub open spec fn fullresync_fields(t: Seq<u8>) -> Option<(Seq<u8>, u64)> {
    if t.len() >= 53 && lower(t.subrange(0, 10)) == seq![102u8, 117u8, 108u8, 108u8, 114u8, 101u8, 115u8, 121u8, 110u8, 99u8] && t[10] == 32u8 && t[51] == 32u8 {
        match parse_decimal_spec(t.subrange(52, t.len() as int)) {
            Some(off) => Some((t.subrange(11, 51), off)),
            None => None,
        }
    } else {
        None
    }
}

/// Why a master's handshake reply is not understood.
#[derive(Debug, Clone, Copy, PartialEq, Eq)]
pub enum HandshakeError {
    /// The bytes are no simple string.
    NotSimpleString,
    /// The simple string is not `FULLRESYNC <id> <offset>`.
    NotFullResync,
    /// The snapshot does not come as `$<length>\r\n` and that many bytes.
    BadSnapshotFrame,
}

/// Reads the master's FULLRESYNC reply off the front of `buf`: its
/// replication ID and offset, and what follows.
pub fn parse_fullresync(buf: &[u8]) -> (r: Result<(MasterInfo, &[u8]), HandshakeError>)
    ensures
        match r {
            Ok((info, rest)) => crate::resp::parse_value(buf@) matches Ok((RespTerm::Simple(t), rr)) && rr == rest@
                && fullresync_fields(t) == Some((info.repl_id@, info.repl_offset)),
            Err(HandshakeError::NotSimpleString) => !(crate::resp::parse_value(buf@) matches Ok((RespTerm::Simple(_), _))),
            Err(HandshakeError::NotFullResync) => crate::resp::parse_value(buf@) matches Ok((RespTerm::Simple(t), _))
                && fullresync_fields(t) is None,
            Err(HandshakeError::BadSnapshotFrame) => false,
        },
{
    let (val, rest) = match crate::resp::decode(buf) {
        Ok(p) => p,
        Err(_) => {
            return Err(HandshakeError::NotSimpleString);
        },
    };
    let text = match val {
        RespValue::SimpleString(t) => t,
        _ => {
            return Err(HandshakeError::NotSimpleString);
        },
    };
    let word = vec![102u8, 117u8, 108u8, 108u8, 114u8, 101u8, 115u8, 121u8, 110u8, 99u8];
    assert(word@ =~= seq![102u8, 117u8, 108u8, 108u8, 114u8, 101u8, 115u8, 121u8, 110u8, 99u8]);
    if text.len() < 53 || text[10] != 32u8 || text[51] != 32u8 {
        return Err(HandshakeError::NotFullResync);
    }
    let t = text.as_slice();
    if !is_word(slice_subrange(t, 0, 10), word.as_slice()) {
        return Err(HandshakeError::NotFullResync);
    }
    match parse_decimal(slice_subrange(t, 52, t.len())) {
        Some(off) => {
            let id = vstd::slice::slice_to_vec(slice_subrange(t, 11, 51));
            Ok((MasterInfo { repl_id: id, repl_offset: off }, rest))
        },
        None => Err(HandshakeError::NotFullResync),
    }
}

/// A snapshot sent as `$<length>\r\n` and that many bytes, with no CR-LF after.
pub open spec fn snapshot_frame(buf: Seq<u8>) -> Option<(Seq<u8>, Seq<u8>)> {
    if buf.len() > 0 && buf[0] == 36u8 {
        match line_split(buf.subrange(1, buf.len() as int)) {
            Some((l, rest)) => match parse_decimal_spec(l) {
                Some(n) => if n <= rest.len() {
                    Some((rest.subrange(0, n as int), rest.subrange(n as int, rest.len() as int)))
                } else {
                    None
                },
                None => None,
            },
            None => None,
        }
    } else {
        None
    }
}

/// Reads the snapshot that follows FULLRESYNC off the front of `buf`.
pub fn parse_snapshot_frame(buf: &[u8]) -> (r: Result<(Vec<u8>, &[u8]), HandshakeError>)
    ensures
        match r {
            Ok((snap, rest)) => snapshot_frame(buf@) == Some((snap@, rest@)),
            Err(e) => e == HandshakeError::BadSnapshotFrame && snapshot_frame(buf@) is None,
        },
{
    if buf.len() == 0 || buf[0] != 36u8 {
        return Err(HandshakeError::BadSnapshotFrame);
    }
    let body = slice_subrange(buf, 1, buf.len());
    let (line, rest) = match split_by_clrf(body) {
        Some(p) => p,
        None => {
            return Err(HandshakeError::BadSnapshotFrame);
        },
    };
    match parse_decimal(line.as_slice()) {
        Some(n) => {
            if n > rest.len() as u64 {
                return Err(HandshakeError::BadSnapshotFrame);
            }
            let snap = vstd::slice::slice_to_vec(slice_subrange(rest, 0, n as usize));
            let after = slice_subrange(rest, n as usize, rest.len());
            Ok((snap, after))
        },
        None => Err(HandshakeError::BadSnapshotFrame),
    }
}

/// `FULLRESYNC <id> 0`
pub open spec fn fullresync_text(id: Seq<u8>) -> Seq<u8> {
    seq![70u8, 85u8, 76u8, 76u8, 82u8, 69u8, 83u8, 89u8, 78u8, 67u8, 32u8] + id + seq![32u8, 48u8]
}

/// The first part of a master's PSYNC reply: `+FULLRESYNC <id> 0\r\n`.
pub fn psync_reply(repl_id: &Vec<u8>) -> (r: Vec<u8>)
    ensures
        r@ == encode(RespTerm::Simple(fullresync_text(repl_id@))),
{
    let mut t: Vec<u8> = vec![70u8, 85u8, 76u8, 76u8, 82u8, 69u8, 83u8, 89u8, 78u8, 67u8, 32u8];
    append(&mut t, copy_bytes(repl_id));
    t.push(32u8);
    t.push(48u8);
    assert(t@ =~= fullresync_text(repl_id@));
    RespValue::SimpleString(t).to_bytes()
}

/// A snapshot as a master sends it: `$<length>\r\n` and the bytes, with no CR-LF after.
pub fn snapshot_transfer(snapshot: &Vec<u8>) -> (r: Vec<u8>)
    ensures
        r@ == seq![36u8] + decimal(snapshot@.len()) + seq![13u8, 10u8] + snapshot@,
{
    let mut r: Vec<u8> = vec![36u8];
    append(&mut r, decimal_bytes(snapshot.len() as u64));
    r.push(13u8);
    r.push(10u8);
    append(&mut r, copy_bytes(snapshot));
    assert(r@ =~= seq![36u8] + decimal(snapshot@.len()) + seq![13u8, 10u8] + snapshot@);
    r
}

/// The value of a hexadecimal digit, either case.
pub open spec fn hex_digit(c: u8) -> Option<u8> {
    if 48 <= c <= 57 {
        Some((c - 48) as u8)
    } else if 97 <= c <= 102 {
        Some((c - 87) as u8)
    } else if 65 <= c <= 70 {
        Some((c - 55) as u8)
    } else {
        None
    }
}

/// The bytes that a hexadecimal text stands for: two digits a byte, high first.
pub open spec fn hex_bytes(s: Seq<u8>) -> Option<Seq<u8>> {
    if s.len() % 2 == 0 && forall|i: int| 0 <= i < s.len() ==> (#[trigger] hex_digit(s[i])) is Some {
        Some(Seq::new((s.len() / 2) as nat, |i: int| (hex_digit(s[2 * i])->0 * 16 + hex_digit(s[2 * i + 1])->0) as u8))
    } else {
        None
    }
}

/// Relies on `hex::decode`: pairs of hexadecimal digits of either case, high
/// digit first, become bytes; odd length or another character fails.
#[verifier::external_body]
fn hex_decode(s: &[u8]) -> (r: Option<Vec<u8>>)
    ensures
        match r {
            Some(v) => hex_bytes(s@) == Some(v@),
            None => hex_bytes(s@) is None,
        },
{
    hex::decode(s).ok()
}

/// The text of the empty snapshot that a master sends on a full resync.
pub open spec fn empty_snapshot_hex() -> Seq<u8> {
    seq![53u8, 50u8, 52u8, 53u8, 52u8, 52u8, 52u8, 57u8, 53u8, 51u8, 51u8, 48u8, 51u8, 48u8, 51u8, 49u8, 51u8, 49u8, 102u8, 97u8, 48u8, 57u8, 55u8, 50u8, 54u8, 53u8, 54u8, 52u8, 54u8, 57u8, 55u8, 51u8, 50u8, 100u8, 55u8, 54u8, 54u8, 53u8, 55u8, 50u8, 48u8, 53u8, 51u8, 55u8, 50u8, 101u8, 51u8, 50u8, 50u8, 101u8, 51u8, 48u8, 102u8, 97u8, 48u8, 97u8, 55u8, 50u8, 54u8, 53u8, 54u8, 52u8, 54u8, 57u8, 55u8, 51u8, 50u8, 100u8, 54u8, 50u8, 54u8, 57u8, 55u8, 52u8, 55u8, 51u8, 99u8, 48u8, 52u8, 48u8, 102u8, 97u8, 48u8, 53u8, 54u8, 51u8, 55u8, 52u8, 54u8, 57u8, 54u8, 100u8, 54u8, 53u8, 99u8, 50u8, 54u8, 100u8, 48u8, 56u8, 98u8, 99u8, 54u8, 53u8, 102u8, 97u8, 48u8, 56u8, 55u8, 53u8, 55u8, 51u8, 54u8, 53u8, 54u8, 52u8, 50u8, 100u8, 54u8, 100u8, 54u8, 53u8, 54u8, 100u8, 99u8, 50u8, 98u8, 48u8, 99u8, 52u8, 49u8, 48u8, 48u8, 48u8, 102u8, 97u8, 48u8, 56u8, 54u8, 49u8, 54u8, 102u8, 54u8, 54u8, 50u8, 100u8, 54u8, 50u8, 54u8, 49u8, 55u8, 51u8, 54u8, 53u8, 99u8, 48u8, 48u8, 48u8, 102u8, 102u8, 102u8, 48u8, 54u8, 101u8, 51u8, 98u8, 102u8, 101u8, 99u8, 48u8, 102u8, 102u8, 53u8, 97u8, 97u8, 50u8]
}

/// The empty snapshot that a master sends on a full resync.
pub fn empty_snapshot() -> (r: Option<Vec<u8>>)
    ensures
        match r {
            Some(v) => hex_bytes(empty_snapshot_hex()) == Some(v@),
            None => hex_bytes(empty_snapshot_hex()) is None,
        },
{
    let text: Vec<u8> = vec![53u8, 50u8, 52u8, 53u8, 52u8, 52u8, 52u8, 57u8, 53u8, 51u8, 51u8, 48u8, 51u8, 48u8, 51u8, 49u8, 51u8, 49u8, 102u8, 97u8, 48u8, 57u8, 55u8, 50u8, 54u8, 53u8, 54u8, 52u8, 54u8, 57u8, 55u8, 51u8, 50u8, 100u8, 55u8, 54u8, 54u8, 53u8, 55u8, 50u8, 48u8, 53u8, 51u8, 55u8, 50u8, 101u8, 51u8, 50u8, 50u8, 101u8, 51u8, 48u8, 102u8, 97u8, 48u8, 97u8, 55u8, 50u8, 54u8, 53u8, 54u8, 52u8, 54u8, 57u8, 55u8, 51u8, 50u8, 100u8, 54u8, 50u8, 54u8, 57u8, 55u8, 52u8, 55u8, 51u8, 99u8, 48u8, 52u8, 48u8, 102u8, 97u8, 48u8, 53u8, 54u8, 51u8, 55u8, 52u8, 54u8, 57u8, 54u8, 100u8, 54u8, 53u8, 99u8, 50u8, 54u8, 100u8, 48u8, 56u8, 98u8, 99u8, 54u8, 53u8, 102u8, 97u8, 48u8, 56u8, 55u8, 53u8, 55u8, 51u8, 54u8, 53u8, 54u8, 52u8, 50u8, 100u8, 54u8, 100u8, 54u8, 53u8, 54u8, 100u8, 99u8, 50u8, 98u8, 48u8, 99u8, 52u8, 49u8, 48u8, 48u8, 48u8, 102u8, 97u8, 48u8, 56u8, 54u8, 49u8, 54u8, 102u8, 54u8, 54u8, 50u8, 100u8, 54u8, 50u8, 54u8, 49u8, 55u8, 51u8, 54u8, 53u8, 99u8, 48u8, 48u8, 48u8, 102u8, 102u8, 102u8, 48u8, 54u8, 101u8, 51u8, 98u8, 102u8, 101u8, 99u8, 48u8, 102u8, 102u8, 53u8, 97u8, 97u8, 50u8];
    assert(text@ =~= empty_snapshot_hex());
    hex_decode(text.as_slice())
}

/// A replica's answer is `REPLCONF ACK <offset>`.
pub fn is_ack_reply(buf: &[u8]) -> (r: bool)
    ensures
        r == (crate::command::parse_frame(buf@) matches Ok((CommandTerm::ReplConf(ReplConfTerm::Ack(_)), _))),
{
    match Command::from_bytes(buf) {
        Ok((Command::ReplConf(ReplConfArg::Ack(_)), _)) => true,
        _ => false,
    }
}

/// The commands of a replica's handshake, in order: PING, REPLCONF
/// listening-port, REPLCONF capa psync2, PSYNC ? -1.
pub fn handshake_commands(port: u16) -> (r: Vec<Command>)
    ensures
        r@.len() == 4,
        r@[0]@ == CommandTerm::Ping,
        r@[1]@ == CommandTerm::ReplConf(ReplConfTerm::ListeningPort(port)),
        r@[2]@ == CommandTerm::ReplConf(ReplConfTerm::Capa(seq![seq![112u8, 115u8, 121u8, 110u8, 99u8, 50u8]])),
        r@[3]@ == (CommandTerm::PSync { repl_id: None, repl_offset: None }),
{
    let mut caps: Vec<Vec<u8>> = Vec::new();
    let c = vec![112u8, 115u8, 121u8, 110u8, 99u8, 50u8];
    assert(c@ =~= seq![112u8, 115u8, 121u8, 110u8, 99u8, 50u8]);
    caps.push(c);
    assert(byte_views(caps@) =~= seq![seq![112u8, 115u8, 121u8, 110u8, 99u8, 50u8]]);
    let mut r: Vec<Command> = Vec::new();
    r.push(Command::Ping);
    r.push(Command::ReplConf(ReplConfArg::ListeningPort(port)));
    r.push(Command::ReplConf(ReplConfArg::Capa(caps)));
    r.push(Command::PSync { repl_id: None, repl_offset: None });
    r
}

/// The client commands that a server of `role` serves: a master serves every
/// command; a replica serves PING, ECHO, GET, INFO, TYPE and XADD.
pub open spec fn serves_spec(role: RedisRole, c: CommandTerm) -> bool {
    role == RedisRole::Master || match c {
        CommandTerm::Ping => true,
        CommandTerm::Echo(_) => true,
        CommandTerm::Get(_) => true,
        CommandTerm::Info(_) => true,
        CommandTerm::LookupType(_) => true,
        CommandTerm::XAdd { .. } => true,
        _ => false,
    }
}

/// Whether a server of `role` serves `cmd` from a client.
pub fn serves(role: RedisRole, cmd: &Command) -> (r: bool)
    ensures
        r == serves_spec(role, cmd@),
{
    match role {
        RedisRole::Master => true,
        RedisRole::Slave => match cmd {
            Command::Ping | Command::Echo(_) | Command::Get(_) | Command::Info(_) | Command::LookupType(_)
            | Command::XAdd { .. } => true,
            _ => false,
        },
    }
}

/// WAIT when nothing has been propagated yet: the number of replicas is the
/// answer at once. Otherwise `None`: acknowledgements are to be collected.
pub fn wait_immediate(repl_offset: u64, replicas: u64) -> (r: Option<u64>)
    ensures
        r == if repl_offset == 0 {
            Some(replicas)
        } else {
            None::<u64>
        },
{
    if repl_offset == 0 {
        Some(replicas)
    } else {
        None
    }
}

/// The acknowledgements a WAIT has collected, and the replies still pending.
pub struct AckCount {
    pub wanted: u64,
    pub acks: u64,
    pub pending: u64,
}

impl AckCount {
    pub open spec fn wf(&self) -> bool {
        self.acks + self.pending <= u64::MAX
    }

    /// Waits for `wanted` acknowledgements from `replicas` replicas.
    pub fn new(wanted: u64, replicas: u64) -> (r: Self)
        ensures
            r.wf(),
            r.wanted == wanted,
            r.acks == 0,
            r.pending == replicas,
    {
        AckCount { wanted, acks: 0, pending: replicas }
    }

    /// Counts one replica's reply; only an ACK counts as an acknowledgement.
    pub fn record(&mut self, is_ack: bool)
        requires
            old(self).wf(),
            old(self).pending > 0,
        ensures
            final(self).wf(),
            final(self).wanted == old(self).wanted,
            final(self).pending == old(self).pending - 1,
            final(self).acks == old(self).acks + if is_ack { 1u64 } else { 0u64 },
    {
        self.pending = self.pending - 1;
        if is_ack {
            self.acks = self.acks + 1;
        }
    }

    /// Whether the count is final: enough acknowledgements, or no reply pending.
    pub fn done(&self) -> (r: bool)
        ensures
            r == (self.acks >= self.wanted || self.pending == 0),
    {
        self.acks >= self.wanted || self.pending == 0
    }
}

/// `s` is a live string at `now` in `db`.
pub open spec fn live_string(db: RedisDb, k: Seq<u8>, now: u64) -> bool {
    db.strings().contains_key(k) && live(db.strings()[k].expiry, now)
}

/// What TYPE reports for `k` at `now`.
pub open spec fn kind_of(db: RedisDb, k: Seq<u8>, now: u64) -> Option<RedisValueType> {
    if live_string(db, k, now) {
        Some(RedisValueType::String)
    } else if db.streams().contains_key(k) {
        Some(RedisValueType::Stream)
    } else {
        None
    }
}

impl RedisState {
    /// Executes a client command at instant `now`. A master serves every
    /// command and only SET is propagated; a replica serves PING, ECHO, GET,
    /// INFO, TYPE and XADD and closes the connection on anything else.
    #[verifier::rlimit(60)]
    pub fn execute(&mut self, cmd: Command, now: u64) -> (r: Outcome)
        requires
            old(self).wf(),
        ensures
            final(self).wf(),
            final(self).info.role == old(self).info.role,
            final(self).info.master_replid == old(self).info.master_replid,
            final(self).dir == old(self).dir,
            final(self).dbfilename == old(self).dbfilename,
            !serves_spec(old(self).info.role, cmd@) ==> r is Close && final(self).db == old(self).db,
            r is Propagate <==> (cmd@ is SetKey && old(self).info.role == RedisRole::Master),
            r matches Outcome::Propagate(v, b) ==> {
                &&& v@ == RespTerm::Simple(ok_text())
                &&& b@ == encode(command_term(cmd@))
                &&& final(self).log@ == old(self).log@ + b@
                &&& final(self).info.master_repl_offset == advanced(old(self).info.master_repl_offset, b@.len())
            },
            !(r is Propagate) ==> final(self).log == old(self).log && final(self).info.master_repl_offset
                == old(self).info.master_repl_offset,
            cmd@ matches CommandTerm::SetKey { key, value, px } ==> old(self).info.role == RedisRole::Master ==> {
                &&& final(self).db.strings().contains_key(key)
                &&& final(self).db.strings() == old(self).db.strings().insert(key, final(self).db.strings()[key])
                &&& final(self).db.strings()[key].value@ == value
                &&& final(self).db.strings()[key].expiry == match px {
                    Some(ms) => Some(deadline(now, ms)),
                    None => None::<u64>,
                }
            },
            cmd@ is Ping ==> (r matches Outcome::Reply(v) && v@ == RespTerm::Simple(pong())),
            cmd@ matches CommandTerm::Echo(x) ==> (r matches Outcome::Reply(v) && v@ == RespTerm::Bulk(x)),
            cmd@ matches CommandTerm::Get(k) ==> (r matches Outcome::Reply(v) && v@ == if live_string(old(self).db, k, now) {
                RespTerm::Bulk(old(self).db.strings()[k].value@)
            } else {
                RespTerm::Null
            }),
            cmd@ is Info ==> (r matches Outcome::Reply(v) && v@ == RespTerm::Bulk(
                info_text(old(self).info.role, old(self).info.master_replid@, old(self).info.master_repl_offset),
            )),
            cmd@ matches CommandTerm::LookupType(k) ==> (r matches Outcome::Reply(v) && v@ == RespTerm::Simple(
                kind_name(kind_of(old(self).db, k, now)),
            )),
            cmd@ matches CommandTerm::XAdd { key, entry_id, .. } ==> (r matches Outcome::Appended(v, k2) && k2@ == key
                && (v@ is Bulk <==> crate::stream::resolve_id(entry_id, old(self).db.top(key), now) is Ok)
                && (v@ is Error ==> final(self).db.streams() == old(self).db.streams())
                && final(self).db.strings() == old(self).db.strings()),
            cmd@ matches CommandTerm::XRange { key, start, end } ==> old(self).info.role == RedisRole::Master ==> (r matches Outcome::Reply(v)
                && exists|l: Seq<(Vec<u8>, Vec<Vec<u8>>)>| v@ == entries_term(l) && (old(self).db.streams().contains_key(key) ==> lists_entries(
                    l,
                    old(self).db.streams()[key].entries(),
                    start.pair(),
                    end.pair(),
                ))),
            cmd@ matches CommandTerm::ConfigGet(k) ==> old(self).info.role == RedisRole::Master ==> (r matches Outcome::Reply(v)
                && v@ == bulk_array(seq![k, config_value(k, old(self).dir, old(self).dbfilename)])),
            (cmd@ is Keys && old(self).info.role == RedisRole::Master) ==> r is Reply,
            cmd@ matches CommandTerm::XRead { block, .. } ==> old(self).info.role == RedisRole::Master ==> (r is Reply
                || (r matches Outcome::Block(ms) && block == Some(ms))),
            (cmd@ is ReplConf && old(self).info.role == RedisRole::Master) ==> (r matches Outcome::Reply(v) && v@
                == RespTerm::Simple(ok_text())),
            cmd@ matches CommandTerm::Wait { repl_ack_num, timeout_dur } ==> old(self).info.role == RedisRole::Master
                ==> (r matches Outcome::Wait(n, t) && n == repl_ack_num && t == timeout_dur),
            (cmd@ is PSync && old(self).info.role == RedisRole::Master) ==> (r is FullResync || r is Close),
            r matches Outcome::FullResync(b) ==> (exists|snap: Seq<u8>| hex_bytes(empty_snapshot_hex()) == Some(snap)
                && b@ == encode(RespTerm::Simple(fullresync_text(old(self).info.master_replid@))) + seq![36u8]
                + decimal(snap.len()) + seq![13u8, 10u8] + snap),
            (cmd@ is Get || cmd@ is LookupType) ==> final(self).db.streams() == old(self).db.streams(),
            !(cmd@ is SetKey || cmd@ is Get || cmd@ is LookupType || cmd@ is XAdd) ==> final(self).db == old(self).db,
    {
        if !serves(self.info.role, &cmd) {
            return Outcome::Close;
        }
        let master = match self.info.role {
            RedisRole::Master => true,
            RedisRole::Slave => false,
        };
        match cmd {
            Command::Ping => Outcome::Reply(handle_ping()),
            Command::Echo(v) => Outcome::Reply(handle_echo(&v)),
            Command::Get(k) => Outcome::Reply(handle_get(&mut self.db, &k, now)),
            Command::Info(_) => Outcome::Reply(handle_info(&self.info)),
            Command::LookupType(k) => Outcome::Reply(handle_type(&mut self.db, &k, now)),
            Command::XAdd { key, entry_id, data } => {
                let r = handle_xadd(&mut self.db, &key, entry_id, data, now);
                Outcome::Appended(r, key)
            },
            Command::SetKey { key, value, px } => {
                let r = handle_set(&mut self.db, &key, &value, px, now);
                let c = Command::SetKey { key, value, px };
                let bytes = self.propagate(&c);
                Outcome::Propagate(r, bytes)
            },
            Command::XRange { key, start, end } => Outcome::Reply(handle_xrange(&self.db, &key, start, end)),
            Command::Keys => Outcome::Reply(handle_keys(&self.db)),
            Command::Config(ConfigArg::Get(k)) => Outcome::Reply(handle_config_get(&k, &self.dir, &self.dbfilename)),
            Command::XRead { block, streams } => {
                let data = self.db.xread(&streams);
                match xread_reply(data, block) {
                    Some(v) => Outcome::Reply(v),
                    None => match block {
                        Some(ms) => Outcome::Block(ms),
                        None => Outcome::Reply(RespValue::NullBulkString),
                    },
                }
            },
            Command::ReplConf(_) => {
                let v = vec![79u8, 75u8];
                assert(v@ =~= ok_text());
                Outcome::Reply(simple_string(v))
            },
            Command::Wait { repl_ack_num, timeout_dur } => Outcome::Wait(repl_ack_num, timeout_dur),
            Command::PSync { .. } => match empty_snapshot() {
                Some(snap) => {
                    let mut bytes = psync_reply(&self.info.master_replid);
                    let mut tail = snapshot_transfer(&snap);
                    bytes.append(&mut tail);
                    Outcome::FullResync(bytes)
                },
                None => Outcome::Close,
            },
        }
    }
}

/// The reply a master owes at step `step` of the handshake: PONG to PING,
/// then OK to each REPLCONF.
pub open spec fn handshake_reply_spec(step: usize, reply: Seq<u8>) -> bool {
    &&& step < 3
    &&& crate::resp::parse_value(reply) matches Ok((RespTerm::Simple(t), _))
    &&& t == if step == 0 { pong() } else { ok_text() }
}

/// Whether `reply` starts with the reply owed at step `step` of the handshake;
/// the next command of `handshake_commands` is sent only after it.
pub fn handshake_reply_ok(step: usize, reply: &[u8]) -> (r: bool)
    ensures
        r == handshake_reply_spec(step, reply@),
{
    if step >= 3 {
        return false;
    }
    match crate::resp::decode(reply) {
        Ok((RespValue::SimpleString(t), _)) => {
            let want: Vec<u8> = if step == 0 {
                vec![80u8, 79u8, 78u8, 71u8]
            } else {
                vec![79u8, 75u8]
            };
            assert(want@ =~= if step == 0 { pong() } else { ok_text() });
            crate::utils::bytes_eq(t.as_slice(), want.as_slice())
        },
        _ => false,
    }
}

} // verus!
