//! Streams: append-only logs of field/value entries under strictly
//! increasing IDs, kept in a two-level trie (milliseconds, then sequence number).
use vstd::prelude::*;
use crate::trie::Trie;
use crate::utils::{byte_views, copy_bytes, decimal, decimal_bytes};

verus! {

/// A concrete entry ID, ordered by milliseconds, then by sequence number.
#[derive(Debug, Clone, Copy, PartialEq, Eq)]
pub struct StreamEntryID {
    pub millis: u64,
    pub seq_num: u64,
}

/// An ID as a request gives it: the sequence number may be left to the stream.
#[derive(Debug, Clone, Copy, PartialEq, Eq)]
pub struct ReqStreamEntryID {
    pub millis: u64,
    pub seq_num: Option<u64>,
}

/// The field/value pairs of one entry, in the order given.
pub type Fields = Vec<(Vec<u8>, Vec<u8>)>;

/// Why an append is refused.
#[derive(Debug, Clone, Copy, PartialEq, Eq)]
pub enum StreamError {
    /// The ID `0-0` was asked for.
    ZeroId,
    /// The ID is not above the stream's top entry.
    NotAboveTop,
}

pub open spec fn id_lt(a: (u64, u64), b: (u64, u64)) -> bool {
    a.0 < b.0 || (a.0 == b.0 && a.1 < b.1)
}

pub open spec fn id_le(a: (u64, u64), b: (u64, u64)) -> bool {
    a.0 < b.0 || (a.0 == b.0 && a.1 <= b.1)
}

/// The textual form `millis-seq`.
pub open spec fn id_text(id: (u64, u64)) -> Seq<u8> {
    decimal(id.0 as nat) + seq![45u8] + decimal(id.1 as nat)
}

impl StreamEntryID {
    pub open spec fn pair(self) -> (u64, u64) {
        (self.millis, self.seq_num)
    }

    /// The ID written as `millis-seq`.
    pub fn as_bytes(&self) -> (r: Vec<u8>)
        ensures
            r@ == id_text(self.pair()),
    {
        let mut res = decimal_bytes(self.millis);
        res.push(45u8);
        let mut seq_num = decimal_bytes(self.seq_num);
        res.append(&mut seq_num);
        res
    }
}

/// `ERR The ID specified in XADD must be greater than 0-0`
pub open spec fn zero_id_message() -> Seq<u8> {
    seq![69u8, 82u8, 82u8, 32u8, 84u8, 104u8, 101u8, 32u8, 73u8, 68u8, 32u8, 115u8, 112u8, 101u8, 99u8, 105u8, 102u8, 105u8, 101u8, 100u8, 32u8, 105u8, 110u8, 32u8, 88u8, 65u8, 68u8, 68u8, 32u8, 109u8, 117u8, 115u8, 116u8, 32u8, 98u8, 101u8, 32u8, 103u8, 114u8, 101u8, 97u8, 116u8, 101u8, 114u8, 32u8, 116u8, 104u8, 97u8, 110u8, 32u8, 48u8, 45u8, 48u8]
}

/// `ERR The ID specified in XADD is equal or smaller than the target stream top item`
pub open spec fn not_above_top_message() -> Seq<u8> {
    seq![69u8, 82u8, 82u8, 32u8, 84u8, 104u8, 101u8, 32u8, 73u8, 68u8, 32u8, 115u8, 112u8, 101u8, 99u8, 105u8, 102u8, 105u8, 101u8, 100u8, 32u8, 105u8, 110u8, 32u8, 88u8, 65u8, 68u8, 68u8, 32u8, 105u8, 115u8, 32u8, 101u8, 113u8, 117u8, 97u8, 108u8, 32u8, 111u8, 114u8, 32u8, 115u8, 109u8, 97u8, 108u8, 108u8, 101u8, 114u8, 32u8, 116u8, 104u8, 97u8, 110u8, 32u8, 116u8, 104u8, 101u8, 32u8, 116u8, 97u8, 114u8, 103u8, 101u8, 116u8, 32u8, 115u8, 116u8, 114u8, 101u8, 97u8, 109u8, 32u8, 116u8, 111u8, 112u8, 32u8, 105u8, 116u8, 101u8, 109u8]
}

impl StreamError {
    /// The error text that clients receive.
    pub fn message(&self) -> (r: Vec<u8>)
        ensures
            *self == StreamError::ZeroId ==> r@ == zero_id_message(),
            *self == StreamError::NotAboveTop ==> r@ == not_above_top_message(),
    {
        match self {
            StreamError::ZeroId => {
                let r = vec![69u8, 82u8, 82u8, 32u8, 84u8, 104u8, 101u8, 32u8, 73u8, 68u8, 32u8, 115u8, 112u8, 101u8, 99u8, 105u8, 102u8, 105u8, 101u8, 100u8, 32u8, 105u8, 110u8, 32u8, 88u8, 65u8, 68u8, 68u8, 32u8, 109u8, 117u8, 115u8, 116u8, 32u8, 98u8, 101u8, 32u8, 103u8, 114u8, 101u8, 97u8, 116u8, 101u8, 114u8, 32u8, 116u8, 104u8, 97u8, 110u8, 32u8, 48u8, 45u8, 48u8];
                assert(r@ =~= zero_id_message());
                r
            },
            StreamError::NotAboveTop => {
                let r = vec![69u8, 82u8, 82u8, 32u8, 84u8, 104u8, 101u8, 32u8, 73u8, 68u8, 32u8, 115u8, 112u8, 101u8, 99u8, 105u8, 102u8, 105u8, 101u8, 100u8, 32u8, 105u8, 110u8, 32u8, 88u8, 65u8, 68u8, 68u8, 32u8, 105u8, 115u8, 32u8, 101u8, 113u8, 117u8, 97u8, 108u8, 32u8, 111u8, 114u8, 32u8, 115u8, 109u8, 97u8, 108u8, 108u8, 101u8, 114u8, 32u8, 116u8, 104u8, 97u8, 110u8, 32u8, 116u8, 104u8, 101u8, 32u8, 116u8, 97u8, 114u8, 103u8, 101u8, 116u8, 32u8, 115u8, 116u8, 114u8, 101u8, 97u8, 109u8, 32u8, 116u8, 111u8, 112u8, 32u8, 105u8, 116u8, 101u8, 109u8];
                assert(r@ =~= not_above_top_message());
                r
            },
        }
    }
}

/// The ID that a request resolves to against the stream's top ID `last`
/// (`0-0` when the stream is empty); `now` is the wall clock in milliseconds.
pub open spec fn resolve_id(req: Option<ReqStreamEntryID>, last: (u64, u64), now: u64) -> Result<
    (u64, u64),
    StreamError,
> {
    match req {
        Some(r) => {
            if r.millis == 0 && r.seq_num == Some(0u64) {
                Err(StreamError::ZeroId)
            } else if r.millis < last.0 {
                Err(StreamError::NotAboveTop)
            } else if r.millis == last.0 {
                match r.seq_num {
                    Some(s) => if s > last.1 {
                        Ok((r.millis, s))
                    } else {
                        Err(StreamError::NotAboveTop)
                    },
                    None => if last.1 < u64::MAX {
                        Ok((r.millis, (last.1 + 1) as u64))
                    } else {
                        Err(StreamError::NotAboveTop)
                    },
                }
            } else {
                match r.seq_num {
                    Some(s) => Ok((r.millis, s)),
                    None => Ok((r.millis, 0u64)),
                }
            }
        },
        None => {
            if last == (0u64, 0u64) {
                if now == 0 {
                    Ok((0u64, 1u64))
                } else {
                    Ok((now, 0u64))
                }
            } else if last.1 < u64::MAX {
                Ok((last.0, (last.1 + 1) as u64))
            } else {
                Err(StreamError::NotAboveTop)
            }
        },
    }
}

/// Resolves a requested ID against the stream's top ID.
pub fn make_stream_entry_id(
    req: Option<ReqStreamEntryID>,
    last_entry: &StreamEntryID,
    now: u64,
) -> (r: Result<StreamEntryID, StreamError>)
    ensures
        match r {
            Ok(id) => resolve_id(req, last_entry.pair(), now) == Ok::<(u64, u64), StreamError>(id.pair()),
            Err(e) => resolve_id(req, last_entry.pair(), now) == Err::<(u64, u64), StreamError>(e),
        },
        r matches Ok(id) ==> id_lt(last_entry.pair(), id.pair()) && id.pair() != (0u64, 0u64),
{
    match req {
        Some(req) => {
            if req.millis == 0 && req.seq_num == Some(0u64) {
                return Err(StreamError::ZeroId);
            }
            if req.millis < last_entry.millis {
                return Err(StreamError::NotAboveTop);
            }
            let seq_num = if req.millis == last_entry.millis {
                match req.seq_num {
                    Some(s) => {
                        if s > last_entry.seq_num {
                            s
                        } else {
                            return Err(StreamError::NotAboveTop);
                        }
                    },
                    None => {
                        if last_entry.seq_num < u64::MAX {
                            last_entry.seq_num + 1
                        } else {
                            return Err(StreamError::NotAboveTop);
                        }
                    },
                }
            } else {
                match req.seq_num {
                    Some(s) => s,
                    None => 0,
                }
            };
            Ok(StreamEntryID { millis: req.millis, seq_num })
        },
        None => {
            if last_entry.millis == 0 && last_entry.seq_num == 0 {
                if now == 0 {
                    Ok(StreamEntryID { millis: 0, seq_num: 1 })
                } else {
                    Ok(StreamEntryID { millis: now, seq_num: 0 })
                }
            } else if last_entry.seq_num < u64::MAX {
                Ok(StreamEntryID { millis: last_entry.millis, seq_num: last_entry.seq_num + 1 })
            } else {
                Err(StreamError::NotAboveTop)
            }
        },
    }
}

/// The field/value pairs laid out flat: field, value, field, value, ...
pub open spec fn flatten(f: Seq<(Vec<u8>, Vec<u8>)>) -> Seq<Seq<u8>> {
    Seq::new(2 * f.len(), |i: int| if i % 2 == 0 { f[i / 2].0@ } else { f[i / 2].1@ })
}

/// Lays out the field/value pairs flat.
pub fn flatten_fields(f: &Fields) -> (r: Vec<Vec<u8>>)
    ensures
        byte_views(r@) == flatten(f@),
{
    let mut r: Vec<Vec<u8>> = Vec::new();
    let mut i: usize = 0;
    while i < f.len()
        invariant
            0 <= i <= f@.len(),
            r@.len() == 2 * i,
            forall|j: int| 0 <= j < 2 * i ==> (#[trigger] r@[j])@ == flatten(f@)[j],
        decreases f@.len() - i,
    {
        r.push(copy_bytes(&f[i].0));
        r.push(copy_bytes(&f[i].1));
        i = i + 1;
    }
    assert(byte_views(r@) =~= flatten(f@));
    r
}

/// `r` gives, in ascending ID order, exactly the entries of `entries` whose
/// IDs lie in `[lo, hi]`: each as its ID text and its flattened pairs.
pub open spec fn lists_entries(
    r: Seq<(Vec<u8>, Vec<Vec<u8>>)>,
    entries: Map<(u64, u64), Fields>,
    lo: (u64, u64),
    hi: (u64, u64),
) -> bool {
    exists|ids: Seq<(u64, u64)>| #[trigger] lists_ids(r, ids, entries, lo, hi)
}

pub open spec fn lists_ids(
    r: Seq<(Vec<u8>, Vec<Vec<u8>>)>,
    ids: Seq<(u64, u64)>,
    entries: Map<(u64, u64), Fields>,
    lo: (u64, u64),
    hi: (u64, u64),
) -> bool {
    &&& r.len() == ids.len()
    &&& forall|i: int, j: int| 0 <= i < j < ids.len() ==> id_lt(ids[i], ids[j])
    &&& forall|i: int|
        0 <= i < ids.len() ==> {
            let id = #[trigger] ids[i];
            &&& id_le(lo, id) && id_le(id, hi)
            &&& entries.contains_key(id)
            &&& r[i].0@ == id_text(id)
            &&& byte_views(r[i].1@) == flatten(entries[id]@)
        }
    &&& forall|id: (u64, u64)|
        id_le(lo, id) && id_le(id, hi) && #[trigger] entries.contains_key(id) ==> exists|i: int|
            0 <= i < ids.len() && ids[i] == id
}

/// The least ID above `id` (which must not be the largest).
pub open spec fn next_id(id: (u64, u64)) -> (u64, u64) {
    if id.1 == u64::MAX {
        ((id.0 + 1) as u64, 0u64)
    } else {
        (id.0, (id.1 + 1) as u64)
    }
}

pub proof fn lemma_next_id(a: (u64, u64), b: (u64, u64))
    requires
        a != (u64::MAX, u64::MAX),
    ensures
        id_lt(a, b) <==> id_le(next_id(a), b),
{
}

/// An append-only log of entries under strictly increasing IDs.
pub struct RedisStream {
    root: Trie<Trie<Fields>>,
    last_entry: StreamEntryID,
}

/// Appends, in sequence order, the entries of one millisecond's trie whose
/// sequence numbers lie in `[s_lo, s_hi]`; returns their sequence numbers.
fn append_millis(
    m: u64,
    inner: &Trie<Fields>,
    s_lo: u64,
    s_hi: u64,
    r: &mut Vec<(Vec<u8>, Vec<Vec<u8>>)>,
) -> (sids: Ghost<Seq<u64>>)
    requires
        inner.wf(),
    ensures
        final(r)@.len() == old(r)@.len() + sids@.len(),
        final(r)@.subrange(0, old(r)@.len() as int) == old(r)@,
        forall|i: int, j: int| 0 <= i < j < sids@.len() ==> sids@[i] < sids@[j],
        forall|i: int|
            0 <= i < sids@.len() ==> {
                let s = #[trigger] sids@[i];
                &&& s_lo <= s <= s_hi
                &&& inner@.contains_key(s)
                &&& final(r)@[old(r)@.len() + i].0@ == id_text((m, s))
                &&& byte_views(final(r)@[old(r)@.len() + i].1@) == flatten(inner@[s]@)
            },
        forall|s: u64|
            s_lo <= s <= s_hi && #[trigger] inner@.contains_key(s) ==> exists|i: int|
                0 <= i < sids@.len() && sids@[i] == s,
{
    let entries = inner.get_range_incl(s_lo, s_hi);
    let ghost start = r@.len();
    let ghost sids = Seq::new(entries@.len(), |i: int| entries@[i].0);
    let mut i: usize = 0;
    while i < entries.len()
        invariant
            0 <= i <= entries@.len(),
            r@.len() == start + i,
            r@.subrange(0, start as int) == old(r)@,
            start == old(r)@.len(),
            sids == Seq::new(entries@.len(), |i: int| entries@[i].0),
            forall|k: int|
                0 <= k < i ==> {
                    &&& (#[trigger] r@[start + k]).0@ == id_text((m, entries@[k].0))
                    &&& byte_views(r@[start + k].1@) == flatten(inner@[entries@[k].0]@)
                },
            forall|k: int|
                0 <= k < entries@.len() ==> {
                    let key = (#[trigger] entries@[k]).0;
                    &&& inner@.contains_key(key)
                    &&& inner@[key] == *entries@[k].1
                },
        decreases entries@.len() - i,
    {
        let (s, fields) = entries[i];
        let id = StreamEntryID { millis: m, seq_num: s };
        let text = id.as_bytes();
        let flat = flatten_fields(fields);
        let ghost before = r@;
        r.push((text, flat));
        assert(r@.subrange(0, start as int) =~= before.subrange(0, start as int));
        i = i + 1;
    }
    assert forall|s: u64| s_lo <= s <= s_hi && #[trigger] inner@.contains_key(s) implies exists|i: int|
        0 <= i < sids.len() && sids[i] == s by {
        let k = choose|k: int| 0 <= k < entries@.len() && entries@[k].0 == s;
        assert(sids[k] == s);
    }
    Ghost(sids)
}

impl RedisStream {
    /// The entries, by ID.
    pub closed spec fn entries(&self) -> Map<(u64, u64), Fields> {
        Map::new(
            |id: (u64, u64)| self.root@.contains_key(id.0) && self.root@[id.0]@.contains_key(id.1),
            |id: (u64, u64)| self.root@[id.0]@[id.1],
        )
    }

    /// The top ID: that of the last entry, `0-0` while there is none.
    pub closed spec fn last(&self) -> (u64, u64) {
        self.last_entry.pair()
    }

    pub closed spec fn wf(&self) -> bool {
        &&& self.root.wf()
        &&& forall|m: u64| #[trigger] self.root@.contains_key(m) ==> self.root@[m].wf()
        &&& forall|id: (u64, u64)| #[trigger] self.entries().contains_key(id) ==> id_le(id, self.last())
        &&& !self.entries().contains_key((0u64, 0u64))
        &&& self.last() != (0u64, 0u64) ==> self.entries().contains_key(self.last())
    }

    pub fn new() -> (r: Self)
        ensures
            r.wf(),
            r.entries() == Map::<(u64, u64), Fields>::empty(),
            r.last() == (0u64, 0u64),
    {
        let r = RedisStream { root: Trie::new(), last_entry: StreamEntryID { millis: 0, seq_num: 0 } };
        assert(r.entries() =~= Map::<(u64, u64), Fields>::empty());
        r
    }

    /// The top ID.
    pub fn last_entry(&self) -> (r: StreamEntryID)
        ensures
            r.pair() == self.last(),
    {
        self.last_entry
    }

    /// Appends an entry under the ID that `entry_id` resolves to (`now` is the
    /// wall clock in milliseconds). The new ID is above every earlier one; a
    /// refused request leaves the stream as it was.
    pub fn insert(&mut self, entry_id: Option<ReqStreamEntryID>, data: Fields, now: u64) -> (r: Result<
        StreamEntryID,
        StreamError,
    >)
        requires
            old(self).wf(),
        ensures
            final(self).wf(),
            match r {
                Ok(id) => {
                    &&& resolve_id(entry_id, old(self).last(), now) == Ok::<(u64, u64), StreamError>(id.pair())
                    &&& id_lt(old(self).last(), id.pair())
                    &&& final(self).last() == id.pair()
                    &&& final(self).entries() == old(self).entries().insert(id.pair(), data)
                },
                Err(e) => {
                    &&& resolve_id(entry_id, old(self).last(), now) == Err::<(u64, u64), StreamError>(e)
                    &&& *final(self) == *old(self)
                },
            },
    {
        let id = match make_stream_entry_id(entry_id, &self.last_entry, now) {
            Ok(id) => id,
            Err(e) => {
                return Err(e);
            },
        };
        let ghost old_entries = self.entries();
        let ghost old_root = self.root@;
        let mut inner = match self.root.take(id.millis) {
            Some(t) => t,
            None => Trie::new(),
        };
        let ghost old_inner = inner@;
        inner.insert(id.seq_num, data);
        self.root.insert(id.millis, inner);
        self.last_entry = id;
        assert(self.entries() =~= old_entries.insert(id.pair(), data)) by {
            assert forall|k: (u64, u64)| #[trigger] self.entries().contains_key(k) == old_entries.insert(
                id.pair(),
                data,
            ).contains_key(k) by {
                if k.0 == id.millis {
                    assert(old_root.contains_key(k.0) ==> old_inner == old_root[k.0]@);
                }
            }
            assert forall|k: (u64, u64)| #[trigger] self.entries().contains_key(k) implies self.entries()[k]
                == old_entries.insert(id.pair(), data)[k] by {
                if k.0 == id.millis {
                    assert(old_root.contains_key(k.0) ==> old_inner == old_root[k.0]@);
                }
            }
        }
        assert forall|m: u64| #[trigger] self.root@.contains_key(m) implies self.root@[m].wf() by {
            if m != id.millis {
                assert(old_root.contains_key(m));
            }
        }
        Ok(id)
    }

    /// The entries with IDs in `[start, end]`, in ID order: each as its ID
    /// text and its field/value pairs laid out flat.
    pub fn xrange(&self, start: StreamEntryID, end: StreamEntryID) -> (r: Vec<(Vec<u8>, Vec<Vec<u8>>)>)
        requires
            self.wf(),
        ensures
            lists_entries(r@, self.entries(), start.pair(), end.pair()),
    {
        let outer = self.root.get_range_incl(start.millis, end.millis);
        let mut r: Vec<(Vec<u8>, Vec<Vec<u8>>)> = Vec::new();
        let ghost mut ids: Seq<(u64, u64)> = Seq::empty();
        let ghost entries = self.entries();
        let mut j: usize = 0;
        while j < outer.len()
            invariant
                self.wf(),
                entries == self.entries(),
                0 <= j <= outer@.len(),
                forall|a: int, b: int| 0 <= a < b < outer@.len() ==> outer@[a].0 < outer@[b].0,
                forall|a: int|
                    0 <= a < outer@.len() ==> {
                        let k = (#[trigger] outer@[a]).0;
                        &&& start.millis <= k <= end.millis
                        &&& self.root@.contains_key(k)
                        &&& self.root@[k] == *outer@[a].1
                    },
                r@.len() == ids.len(),
                forall|a: int, b: int| 0 <= a < b < ids.len() ==> id_lt(ids[a], ids[b]),
                forall|a: int| 0 <= a < ids.len() ==> j < outer@.len() ==> (#[trigger] ids[a]).0 < outer@[j as int].0,
                forall|a: int|
                    0 <= a < ids.len() ==> {
                        let id = #[trigger] ids[a];
                        &&& id_le(start.pair(), id) && id_le(id, end.pair())
                        &&& entries.contains_key(id)
                        &&& r@[a].0@ == id_text(id)
                        &&& byte_views(r@[a].1@) == flatten(entries[id]@)
                    },
                forall|id: (u64, u64)|
                    id_le(start.pair(), id) && id_le(id, end.pair()) && #[trigger] entries.contains_key(id)
                        && (exists|b: int| 0 <= b < j && outer@[b].0 == id.0) ==> exists|a: int|
                        0 <= a < ids.len() && ids[a] == id,
            decreases outer@.len() - j,
        {
            let (m, inner) = outer[j];
            let s_lo = if m == start.millis { start.seq_num } else { 0 };
            let s_hi = if m == end.millis { end.seq_num } else { u64::MAX };
            let ghost before = r@;
            let ghost old_ids = ids;
            let sids = append_millis(m, inner, s_lo, s_hi, &mut r);
            proof {
                let new_ids = Seq::new(sids@.len(), |i: int| (m, sids@[i]));
                ids = old_ids + new_ids;
                assert forall|a: int| 0 <= a < ids.len() implies {
                    let id = #[trigger] ids[a];
                    &&& id_le(start.pair(), id) && id_le(id, end.pair())
                    &&& entries.contains_key(id)
                    &&& r@[a].0@ == id_text(id)
                    &&& byte_views(r@[a].1@) == flatten(entries[id]@)
                } by {
                    if a < old_ids.len() {
                        assert(ids[a] == old_ids[a]);
                        assert(r@[a] == before[a]);
                    } else {
                        let i = a - old_ids.len();
                        assert(ids[a] == (m, sids@[i]));
                    }
                }
                assert forall|a: int, b: int| 0 <= a < b < ids.len() implies id_lt(ids[a], ids[b]) by {
                    if b >= old_ids.len() && a < old_ids.len() {
                        assert(ids[a] == old_ids[a]);
                    } else if a >= old_ids.len() {
                        assert(ids[a] == (m, sids@[a - old_ids.len()]));
                        assert(ids[b] == (m, sids@[b - old_ids.len()]));
                    } else {
                        assert(ids[a] == old_ids[a]);
                        assert(ids[b] == old_ids[b]);
                    }
                }
                assert forall|a: int| 0 <= a < ids.len() implies j + 1 < outer@.len() ==> (#[trigger] ids[a]).0
                    < outer@[j + 1].0 by {
                    if a < old_ids.len() {
                        assert(ids[a] == old_ids[a]);
                    } else {
                        assert(ids[a] == (m, sids@[a - old_ids.len()]));
                    }
                }
                assert forall|id: (u64, u64)|
                    id_le(start.pair(), id) && id_le(id, end.pair()) && #[trigger] entries.contains_key(id)
                        && (exists|b: int| 0 <= b < j + 1 && outer@[b].0 == id.0) implies exists|a: int|
                    0 <= a < ids.len() && ids[a] == id by {
                    if id.0 == m {
                        assert(s_lo <= id.1 <= s_hi);
                        assert(inner@.contains_key(id.1));
                        let i = choose|i: int| 0 <= i < sids@.len() && sids@[i] == id.1;
                        assert(ids[old_ids.len() + i] == id);
                    } else {
                        let b = choose|b: int| 0 <= b < j + 1 && outer@[b].0 == id.0;
                        assert(b < j);
                        let a = choose|a: int| 0 <= a < old_ids.len() && old_ids[a] == id;
                        assert(ids[a] == id);
                    }
                }
            }
            j = j + 1;
        }
        proof {
            assert forall|id: (u64, u64)|
                id_le(start.pair(), id) && id_le(id, end.pair()) && #[trigger] entries.contains_key(id)
                implies exists|a: int| 0 <= a < ids.len() && ids[a] == id by {
                assert(self.root@.contains_key(id.0));
                let b = choose|b: int| 0 <= b < outer@.len() && outer@[b].0 == id.0;
            }
            assert(lists_ids(r@, ids, entries, start.pair(), end.pair()));
        }
        r
    }

    /// The entries with IDs strictly above `start`, in ID order.
    pub fn xread(&self, start: &StreamEntryID) -> (r: Vec<(Vec<u8>, Vec<Vec<u8>>)>)
        requires
            self.wf(),
        ensures
            start.pair() == (u64::MAX, u64::MAX) ==> r@.len() == 0,
            start.pair() != (u64::MAX, u64::MAX) ==> lists_entries(
                r@,
                self.entries(),
                next_id(start.pair()),
                (u64::MAX, u64::MAX),
            ),
    {
        if start.millis == u64::MAX && start.seq_num == u64::MAX {
            return Vec::new();
        }
        let (millis, seq_num) = if start.seq_num == u64::MAX {
            (start.millis + 1, 0)
        } else {
            (start.millis, start.seq_num + 1)
        };
        let from = StreamEntryID { millis, seq_num };
        let end = StreamEntryID { millis: u64::MAX, seq_num: u64::MAX };
        self.xrange(from, end)
    }
}

} // verus!
