//! One database: strings with optional expiry, and streams, each keyed by
//! byte strings. Expired strings are removed when they are next read.
use vstd::prelude::*;
use crate::command::XReadStreamArg;
use crate::stream::{
    lists_entries, next_id, Fields, RedisStream, ReqStreamEntryID, StreamEntryID, StreamError,
};
use crate::utils::{bytes_eq, copy_bytes};

verus! {

/// A map kept as a list of pairs whose keys are distinct.
pub open spec fn unique_keys<K: View, V>(s: Seq<(K, V)>) -> bool {
    forall|i: int, j: int| 0 <= i < s.len() && 0 <= j < s.len() && i != j ==> s[i].0@ != s[j].0@
}

pub open spec fn has_key<K: View, V>(s: Seq<(K, V)>, k: K::V) -> bool {
    exists|i: int| 0 <= i < s.len() && s[i].0@ == k
}

/// The map that a list of pairs stands for.
pub open spec fn assoc_map<K: View, V>(s: Seq<(K, V)>) -> Map<K::V, V> {
    Map::new(
        |k: K::V| has_key(s, k),
        |k: K::V| s[choose|i: int| 0 <= i < s.len() && s[i].0@ == k].1,
    )
}

pub proof fn lemma_assoc_at<K: View, V>(s: Seq<(K, V)>, i: int)
    requires
        unique_keys(s),
        0 <= i < s.len(),
    ensures
        assoc_map(s).contains_key(s[i].0@),
        assoc_map(s)[s[i].0@] == s[i].1,
{
    let k = s[i].0@;
    assert(has_key(s, k));
    let j = choose|j: int| 0 <= j < s.len() && s[j].0@ == k;
}

pub proof fn lemma_assoc_push<K: View, V>(s: Seq<(K, V)>, k: K, v: V)
    requires
        unique_keys(s),
        !has_key(s, k@),
    ensures
        unique_keys(s.push((k, v))),
        assoc_map(s.push((k, v))) == assoc_map(s).insert(k@, v),
{
    let t = s.push((k, v));
    assert forall|x: K::V| #[trigger] has_key(t, x) == (has_key(s, x) || x == k@) by {
        if has_key(s, x) {
            let i = choose|i: int| 0 <= i < s.len() && s[i].0@ == x;
            assert(t[i] == s[i]);
        }
        if x == k@ {
            assert(t[s.len() as int].0@ == x);
        }
    }
    assert forall|x: K::V| #[trigger] has_key(t, x) implies assoc_map(t)[x] == assoc_map(s).insert(k@, v)[x] by {
        if x == k@ {
            lemma_assoc_at(t, s.len() as int);
        } else {
            let i = choose|i: int| 0 <= i < s.len() && s[i].0@ == x;
            lemma_assoc_at(s, i);
            assert(t[i] == s[i]);
            lemma_assoc_at(t, i);
        }
    }
    assert(assoc_map(t) =~= assoc_map(s).insert(k@, v));
}

pub proof fn lemma_assoc_update<K: View, V>(s: Seq<(K, V)>, i: int, k: K, v: V)
    requires
        unique_keys(s),
        0 <= i < s.len(),
        s[i].0@ == k@,
    ensures
        unique_keys(s.update(i, (k, v))),
        assoc_map(s.update(i, (k, v))) == assoc_map(s).insert(k@, v),
{
    let t = s.update(i, (k, v));
    assert forall|x: K::V| #[trigger] has_key(t, x) == has_key(s, x) by {
        if has_key(s, x) {
            let j = choose|j: int| 0 <= j < s.len() && s[j].0@ == x;
            assert(t[j].0@ == x);
        }
        if has_key(t, x) {
            let j = choose|j: int| 0 <= j < t.len() && t[j].0@ == x;
            assert(s[j].0@ == x);
        }
    }
    assert forall|x: K::V| #[trigger] has_key(t, x) implies assoc_map(t)[x] == assoc_map(s).insert(k@, v)[x] by {
        let j = choose|j: int| 0 <= j < t.len() && t[j].0@ == x;
        lemma_assoc_at(t, j);
        if j != i {
            lemma_assoc_at(s, j);
        }
    }
    assert(assoc_map(t) =~= assoc_map(s).insert(k@, v));
}

pub proof fn lemma_assoc_remove<K: View, V>(s: Seq<(K, V)>, i: int)
    requires
        unique_keys(s),
        0 <= i < s.len(),
    ensures
        unique_keys(s.remove(i)),
        assoc_map(s.remove(i)) == assoc_map(s).remove(s[i].0@),
{
    let t = s.remove(i);
    let k = s[i].0@;
    assert forall|a: int, b: int| 0 <= a < t.len() && 0 <= b < t.len() && a != b implies t[a].0@ != t[b].0@ by {
        let a1 = if a < i { a } else { a + 1 };
        let b1 = if b < i { b } else { b + 1 };
        assert(t[a] == s[a1]);
        assert(t[b] == s[b1]);
    }
    assert forall|x: K::V| #[trigger] has_key(t, x) == (has_key(s, x) && x != k) by {
        if has_key(s, x) && x != k {
            let j = choose|j: int| 0 <= j < s.len() && s[j].0@ == x;
            let j1 = if j < i { j } else { j - 1 };
            assert(t[j1] == s[j]);
        }
        if has_key(t, x) {
            let j = choose|j: int| 0 <= j < t.len() && t[j].0@ == x;
            let j1 = if j < i { j } else { j + 1 };
            assert(t[j] == s[j1]);
        }
    }
    assert forall|x: K::V| #[trigger] has_key(t, x) implies assoc_map(t)[x] == assoc_map(s)[x] by {
        let j = choose|j: int| 0 <= j < t.len() && t[j].0@ == x;
        let j1 = if j < i { j } else { j + 1 };
        assert(t[j] == s[j1]);
        lemma_assoc_at(t, j);
        lemma_assoc_at(s, j1);
    }
    assert(assoc_map(t) =~= assoc_map(s).remove(k));
}

/// The index of `key` in a list of pairs.
fn find_key<V>(s: &Vec<(Vec<u8>, V)>, key: &[u8]) -> (r: Option<usize>)
    ensures
        r matches Some(i) ==> i < s@.len() && s@[i as int].0@ == key@,
        r is None ==> !has_key(s@, key@),
{
    let mut i: usize = 0;
    while i < s.len()
        invariant
            0 <= i <= s@.len(),
            forall|j: int| 0 <= j < i ==> s@[j].0@ != key@,
        decreases s@.len() - i,
    {
        if bytes_eq(s[i].0.as_slice(), key) {
            return Some(i);
        }
        i = i + 1;
    }
    None
}

/// A string value and its deadline (milliseconds since the epoch), if any.
pub struct DbValue {
    pub value: Vec<u8>,
    pub expiry: Option<u64>,
}

/// A string with this deadline can still be read at `now`.
pub open spec fn live(expiry: Option<u64>, now: u64) -> bool {
    match expiry {
        None => true,
        Some(t) => now < t,
    }
}

/// The deadline `px` milliseconds after `now`, held at the largest instant.
pub open spec fn deadline(now: u64, px: u64) -> u64 {
    if now + px > u64::MAX {
        u64::MAX
    } else {
        (now + px) as u64
    }
}

/// A string read at `now` is found only while its deadline lies ahead; one
/// stored at `set_time` with a positive `px` is found before `px`
/// milliseconds have passed, and reads as absent only once they have.
pub proof fn lemma_expiry(set_time: u64, px: u64, now: u64)
    requires
        px > 0,
        set_time + px <= u64::MAX,
    ensures
        live(Some(deadline(set_time, px)), now) <==> now < deadline(set_time, px),
        !live(Some(deadline(set_time, px)), now) ==> now >= set_time + px,
        now < set_time + px ==> live(Some(deadline(set_time, px)), now),
        live(Some(deadline(set_time, px)), set_time),
{
}

/// What a key holds, as TYPE names it.
#[derive(Debug, Clone, Copy, PartialEq, Eq)]
pub enum RedisValueType {
    String,
    Stream,
}

/// The name that TYPE replies with for what a key holds.
pub open spec fn kind_name(t: Option<RedisValueType>) -> Seq<u8> {
    match t {
        Some(RedisValueType::String) => seq![115u8, 116u8, 114u8, 105u8, 110u8, 103u8],
        Some(RedisValueType::Stream) => seq![115u8, 116u8, 114u8, 101u8, 97u8, 109u8],
        None => seq![110u8, 111u8, 110u8, 101u8],
    }
}

/// The name that TYPE replies with.
pub fn kind_name_bytes(t: Option<RedisValueType>) -> (r: Vec<u8>)
    ensures
        r@ == kind_name(t),
{
    let r = match t {
        Some(RedisValueType::String) => vec![115u8, 116u8, 114u8, 105u8, 110u8, 103u8],
        Some(RedisValueType::Stream) => vec![115u8, 116u8, 114u8, 101u8, 97u8, 109u8],
        None => vec![110u8, 111u8, 110u8, 101u8],
    };
    assert(r@ =~= kind_name(t));
    r
}

pub struct RedisDb {
    strings: Vec<(Vec<u8>, DbValue)>,
    streams: Vec<(Vec<u8>, RedisStream)>,
}

impl RedisDb {
    /// The strings, each with its deadline.
    pub closed spec fn strings(&self) -> Map<Seq<u8>, DbValue> {
        assoc_map(self.strings@)
    }

    /// The streams.
    pub closed spec fn streams(&self) -> Map<Seq<u8>, RedisStream> {
        assoc_map(self.streams@)
    }

    /// The top ID of the stream under `key`; `0-0` when there is none.
    pub open spec fn top(&self, key: Seq<u8>) -> (u64, u64) {
        if self.streams().contains_key(key) {
            self.streams()[key].last()
        } else {
            (0u64, 0u64)
        }
    }

    pub closed spec fn wf(&self) -> bool {
        &&& unique_keys(self.strings@)
        &&& unique_keys(self.streams@)
        &&& forall|i: int| 0 <= i < self.streams@.len() ==> (#[trigger] self.streams@[i]).1.wf()
    }

    pub fn new() -> (r: Self)
        ensures
            r.wf(),
            r.strings() == Map::<Seq<u8>, DbValue>::empty(),
            r.streams() == Map::<Seq<u8>, RedisStream>::empty(),
    {
        let r = RedisDb { strings: Vec::new(), streams: Vec::new() };
        assert(r.strings() =~= Map::<Seq<u8>, DbValue>::empty());
        assert(r.streams() =~= Map::<Seq<u8>, RedisStream>::empty());
        r
    }

    /// The value under `key` at instant `now`; an expired string is removed.
    pub fn get(&mut self, key: &Vec<u8>, now: u64) -> (r: Option<Vec<u8>>)
        requires
            old(self).wf(),
        ensures
            final(self).wf(),
            final(self).streams() == old(self).streams(),
            old(self).strings().contains_key(key@) && live(old(self).strings()[key@].expiry, now) ==> {
                &&& r is Some
                &&& r->0@ == old(self).strings()[key@].value@
                &&& final(self).strings() == old(self).strings()
            },
            old(self).strings().contains_key(key@) && !live(old(self).strings()[key@].expiry, now) ==> {
                &&& r is None
                &&& final(self).strings() == old(self).strings().remove(key@)
            },
            !old(self).strings().contains_key(key@) ==> r is None && final(self).strings()
                == old(self).strings(),
    {
        match find_key(&self.strings, key.as_slice()) {
            None => None,
            Some(i) => {
                proof {
                    lemma_assoc_at(self.strings@, i as int);
                }
                let expired = match self.strings[i].1.expiry {
                    Some(t) => now >= t,
                    None => false,
                };
                if expired {
                    proof {
                        lemma_assoc_remove(self.strings@, i as int);
                    }
                    self.strings.remove(i);
                    None
                } else {
                    Some(copy_bytes(&self.strings[i].1.value))
                }
            },
        }
    }

    /// Stores `value` under `key`, with a deadline `px` milliseconds after
    /// `now` if `px` is given, and none otherwise.
    pub fn set(&mut self, key: &Vec<u8>, value: Vec<u8>, px: Option<u64>, now: u64)
        requires
            old(self).wf(),
        ensures
            final(self).wf(),
            final(self).streams() == old(self).streams(),
            final(self).strings().contains_key(key@),
            final(self).strings() == old(self).strings().insert(key@, final(self).strings()[key@]),
            final(self).strings()[key@].value == value,
            final(self).strings()[key@].expiry == match px {
                Some(ms) => Some(deadline(now, ms)),
                None => None::<u64>,
            },
    {
        let expiry = match px {
            Some(ms) => {
                if ms > u64::MAX - now {
                    Some(u64::MAX)
                } else {
                    Some(now + ms)
                }
            },
            None => None,
        };
        self.store(key, DbValue { value, expiry });
    }

    /// Stores a string value with the deadline it carries.
    pub fn store(&mut self, key: &Vec<u8>, sv: DbValue)
        requires
            old(self).wf(),
        ensures
            final(self).wf(),
            final(self).streams() == old(self).streams(),
            final(self).strings() == old(self).strings().insert(key@, sv),
    {
        let k = copy_bytes(key);
        match find_key(&self.strings, key.as_slice()) {
            Some(i) => {
                proof {
                    lemma_assoc_update(self.strings@, i as int, k, sv);
                }
                self.strings.set(i, (k, sv));
            },
            None => {
                proof {
                    lemma_assoc_push(self.strings@, k, sv);
                }
                self.strings.push((k, sv));
            },
        }
    }

    /// Every string key, each once; expired strings not yet read are included.
    pub fn keys(&self) -> (r: Vec<Vec<u8>>)
        requires
            self.wf(),
        ensures
            forall|i: int| 0 <= i < r@.len() ==> self.strings().contains_key(#[trigger] r@[i]@),
            forall|k: Seq<u8>| #[trigger] self.strings().contains_key(k) ==> exists|i: int|
                0 <= i < r@.len() && r@[i]@ == k,
            forall|i: int, j: int| 0 <= i < j < r@.len() ==> r@[i]@ != r@[j]@,
    {
        let mut r: Vec<Vec<u8>> = Vec::new();
        let mut i: usize = 0;
        while i < self.strings.len()
            invariant
                self.wf(),
                0 <= i <= self.strings@.len(),
                r@.len() == i,
                forall|j: int| 0 <= j < i ==> (#[trigger] r@[j])@ == self.strings@[j].0@,
            decreases self.strings@.len() - i,
        {
            r.push(copy_bytes(&self.strings[i].0));
            i = i + 1;
        }
        assert forall|j: int| 0 <= j < r@.len() implies self.strings().contains_key(#[trigger] r@[j]@) by {
            lemma_assoc_at(self.strings@, j);
        }
        assert forall|k: Seq<u8>| #[trigger] self.strings().contains_key(k) implies exists|i: int|
            0 <= i < r@.len() && r@[i]@ == k by {
            let j = choose|j: int| 0 <= j < self.strings@.len() && self.strings@[j].0@ == k;
            assert(r@[j]@ == k);
        }
        r
    }

    /// What `key` holds at instant `now`: a live string, else a stream, else nothing.
    pub fn lookup_type(&mut self, key: &Vec<u8>, now: u64) -> (r: Option<RedisValueType>)
        requires
            old(self).wf(),
        ensures
            final(self).wf(),
            final(self).streams() == old(self).streams(),
            r == if old(self).strings().contains_key(key@) && live(old(self).strings()[key@].expiry, now) {
                Some(RedisValueType::String)
            } else if old(self).streams().contains_key(key@) {
                Some(RedisValueType::Stream)
            } else {
                None::<RedisValueType>
            },
    {
        if self.get(key, now).is_some() {
            Some(RedisValueType::String)
        } else {
            match find_key(&self.streams, key.as_slice()) {
                Some(i) => {
                    proof {
                        lemma_assoc_at(self.streams@, i as int);
                    }
                    Some(RedisValueType::Stream)
                },
                None => None,
            }
        }
    }

    /// Appends an entry to the stream under `key`, which is created by the
    /// first successful append.
    pub fn xadd(&mut self, key: &Vec<u8>, entry_id: Option<ReqStreamEntryID>, data: Fields, now: u64) -> (r:
        Result<StreamEntryID, StreamError>)
        requires
            old(self).wf(),
        ensures
            final(self).wf(),
            final(self).strings() == old(self).strings(),
            match r {
                Ok(id) => crate::stream::resolve_id(entry_id, old(self).top(key@), now) == Ok::<(u64, u64), StreamError>(id.pair()),
                Err(e) => crate::stream::resolve_id(entry_id, old(self).top(key@), now) == Err::<(u64, u64), StreamError>(e),
            },
            match r {
                Ok(id) => {
                    &&& final(self).streams().contains_key(key@)
                    &&& final(self).streams() == old(self).streams().insert(key@, final(self).streams()[key@])
                    &&& final(self).streams()[key@].last() == id.pair()
                    &&& old(self).streams().contains_key(key@) ==> {
                        &&& crate::stream::id_lt(old(self).streams()[key@].last(), id.pair())
                        &&& final(self).streams()[key@].entries() == old(self).streams()[key@].entries().insert(
                            id.pair(),
                            data,
                        )
                    }
                    &&& !old(self).streams().contains_key(key@) ==> final(self).streams()[key@].entries()
                        == Map::<(u64, u64), Fields>::empty().insert(id.pair(), data)
                },
                Err(_) => final(self).streams() == old(self).streams(),
            },
    {
        match find_key(&self.streams, key.as_slice()) {
            Some(i) => {
                proof {
                    lemma_assoc_at(self.streams@, i as int);
                }
                let ghost old_streams = self.streams@;
                let (k, mut stream) = self.streams.remove(i);
                let res = stream.insert(entry_id, data, now);
                self.streams.insert(i, (k, stream));
                assert(self.streams@ =~= old_streams.update(i as int, (k, stream)));
                proof {
                    lemma_assoc_update(old_streams, i as int, k, stream);
                    lemma_assoc_at(self.streams@, i as int);
                    if res is Err {
                        assert(self.streams() =~= assoc_map(old_streams));
                    }
                }
                res
            },
            None => {
                let mut stream = RedisStream::new();
                match stream.insert(entry_id, data, now) {
                    Ok(id) => {
                        let k = copy_bytes(key);
                        proof {
                            lemma_assoc_push(self.streams@, k, stream);
                        }
                        self.streams.push((k, stream));
                        Ok(id)
                    },
                    Err(e) => Err(e),
                }
            },
        }
    }

    /// The entries of the stream under `key` with IDs in `[start, end]`; none
    /// if there is no such stream.
    pub fn xrange(&self, key: &Vec<u8>, start: StreamEntryID, end: StreamEntryID) -> (r: Vec<
        (Vec<u8>, Vec<Vec<u8>>),
    >)
        requires
            self.wf(),
        ensures
            self.streams().contains_key(key@) ==> lists_entries(
                r@,
                self.streams()[key@].entries(),
                start.pair(),
                end.pair(),
            ),
            !self.streams().contains_key(key@) ==> r@.len() == 0,
    {
        match find_key(&self.streams, key.as_slice()) {
            Some(i) => {
                proof {
                    lemma_assoc_at(self.streams@, i as int);
                }
                self.streams[i].1.xrange(start, end)
            },
            None => Vec::new(),
        }
    }

    /// For each requested stream, in order, its key and its entries above the
    /// given ID.
    pub fn xread(&self, args: &Vec<XReadStreamArg>) -> (r: Vec<(Vec<u8>, Vec<(Vec<u8>, Vec<Vec<u8>>)>)>)
        requires
            self.wf(),
        ensures
            r@.len() == args@.len(),
            forall|i: int|
                0 <= i < args@.len() ==> {
                    let a = #[trigger] args@[i];
                    &&& r@[i].0@ == a.key@
                    &&& (self.streams().contains_key(a.key@) && a.start.pair() != (u64::MAX, u64::MAX))
                        ==> lists_entries(
                        r@[i].1@,
                        self.streams()[a.key@].entries(),
                        next_id(a.start.pair()),
                        (u64::MAX, u64::MAX),
                    )
                    &&& (!self.streams().contains_key(a.key@) || a.start.pair() == (u64::MAX, u64::MAX))
                        ==> r@[i].1@.len() == 0
                },
    {
        let mut r: Vec<(Vec<u8>, Vec<(Vec<u8>, Vec<Vec<u8>>)>)> = Vec::new();
        let mut i: usize = 0;
        while i < args.len()
            invariant
                self.wf(),
                0 <= i <= args@.len(),
                r@.len() == i,
                forall|j: int|
                    0 <= j < i ==> {
                        let a = #[trigger] args@[j];
                        &&& r@[j].0@ == a.key@
                        &&& (self.streams().contains_key(a.key@) && a.start.pair() != (u64::MAX, u64::MAX))
                            ==> lists_entries(
                            r@[j].1@,
                            self.streams()[a.key@].entries(),
                            next_id(a.start.pair()),
                            (u64::MAX, u64::MAX),
                        )
                        &&& (!self.streams().contains_key(a.key@) || a.start.pair() == (u64::MAX, u64::MAX))
                            ==> r@[j].1@.len() == 0
                    },
            decreases args@.len() - i,
        {
            let a = &args[i];
            let entries = match find_key(&self.streams, a.key.as_slice()) {
                Some(k) => {
                    proof {
                        lemma_assoc_at(self.streams@, k as int);
                    }
                    self.streams[k].1.xread(&a.start)
                },
                None => Vec::new(),
            };
            r.push((copy_bytes(&a.key), entries));
            i = i + 1;
        }
        r
    }
}

} // verus!
