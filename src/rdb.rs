//! The snapshot reader: the binary database file that a master sends on a
//! full resync, or that the server loads at start-up.
use vstd::prelude::*;
use vstd::slice::{slice_subrange, slice_to_vec};
use crate::db::{assoc_map, has_key, lemma_assoc_at, lemma_assoc_push, lemma_assoc_update, live, unique_keys, DbValue, RedisDb};
use crate::utils::{signed_decimal, signed_decimal_bytes};

verus! {

pub const OPCODE_EOF: u8 = 0xFF;

pub const OPCODE_SELECTDB: u8 = 0xFE;

pub const OPCODE_EXPIRETIME: u8 = 0xFD;

pub const OPCODE_EXPIRETIMEMS: u8 = 0xFC;

pub const OPCODE_RESIZEDB: u8 = 0xFB;

pub const OPCODE_AUX: u8 = 0xFA;

/// Why a snapshot cannot be read.
#[derive(Debug, Clone, Copy, PartialEq, Eq)]
pub enum RdbError {
    /// It does not start with `REDIS`.
    BadMagic,
    /// An opcode that does not belong where it stands.
    UnexpectedOpcode,
    /// A value of another type than string.
    UnsupportedValueType,
    /// It ends inside a record, or before its end-of-file opcode.
    Truncated,
    /// A length where a special format stands, or a format that is unknown.
    BadLengthEncoding,
    /// A compressed string that does not decompress.
    BadCompressedData,
}

/// A length, or the special format of a string.
#[derive(Debug, Clone, Copy, PartialEq, Eq)]
pub enum RdbLength {
    Length(u32),
    Format(u8),
}

/// What LZF decompression of `data` into at most `out_len` bytes yields.
pub uninterp spec fn lzf_decompressed(data: Seq<u8>, out_len: nat) -> Option<Seq<u8>>;

/// Relies on `lzf::decompress`: it returns the decompressed bytes, never more
/// than `out_len_should` of them, and fails on empty input.
#[verifier::external_body]
fn lzf_decompress(data: &[u8], out_len: usize) -> (r: Option<Vec<u8>>)
    ensures
        match r {
            Some(v) => lzf_decompressed(data@, out_len as nat) == Some(v@) && v@.len() <= out_len,
            None => lzf_decompressed(data@, out_len as nat) is None,
        },
        data@.len() == 0 ==> r is None,
{
    lzf::decompress(data, out_len).ok()
}

/// The unsigned integer of `s`, least significant byte first.
pub open spec fn le_value(s: Seq<u8>) -> nat
    decreases s.len(),
{
    if s.len() == 0 {
        0
    } else {
        s[0] as nat + 256 * le_value(s.subrange(1, s.len() as int))
    }
}

/// The unsigned integer of `s`, most significant byte first.
pub open spec fn be_value(s: Seq<u8>) -> nat
    decreases s.len(),
{
    if s.len() == 0 {
        0
    } else {
        be_value(s.subrange(0, s.len() - 1)) * 256 + s[s.len() - 1] as nat
    }
}

pub open spec fn pow256(n: nat) -> nat
    decreases n,
{
    if n == 0 {
        1
    } else {
        256 * pow256((n - 1) as nat)
    }
}

/// The two's-complement integer of `s`, least significant byte first.
pub open spec fn le_signed(s: Seq<u8>) -> int {
    if s.len() > 0 && s[s.len() - 1] >= 128 {
        le_value(s) - pow256(s.len())
    } else {
        le_value(s) as int
    }
}

/// A length encoding at the front of `s`, and how many bytes it takes.
#[verifier::opaque]
pub open spec fn parse_length(s: Seq<u8>) -> Result<(RdbLength, nat), RdbError> {
    if s.len() == 0 {
        Err(RdbError::Truncated)
    } else {
        let b0 = s[0];
        let top = b0 / 64;
        if top == 0 {
            Ok((RdbLength::Length((b0 % 64) as u32), 1))
        } else if top == 1 {
            if s.len() < 2 {
                Err(RdbError::Truncated)
            } else {
                Ok((RdbLength::Length(((b0 % 64) as nat * 256 + s[1] as nat) as u32), 2))
            }
        } else if top == 2 {
            if s.len() < 5 {
                Err(RdbError::Truncated)
            } else {
                Ok((RdbLength::Length(be_value(s.subrange(1, 5)) as u32), 5))
            }
        } else {
            Ok((RdbLength::Format(b0 % 64), 1))
        }
    }
}

/// A plain length at the front of `s`.
#[verifier::opaque]
pub open spec fn parse_plain_length(s: Seq<u8>) -> Result<(u32, nat), RdbError> {
    match parse_length(s) {
        Ok((RdbLength::Length(l), c)) => Ok((l, c)),
        Ok((RdbLength::Format(_), _)) => Err(RdbError::BadLengthEncoding),
        Err(e) => Err(e),
    }
}

/// A string at the front of `s`, and how many bytes it takes. An
/// integer-encoded string reads as the integer's decimal text.
#[verifier::opaque]
pub open spec fn parse_string(s: Seq<u8>) -> Result<(Seq<u8>, nat), RdbError> {
    match parse_length(s) {
        Err(e) => Err(e),
        Ok((l, c)) => match parse_string_body(l, s.subrange(c as int, s.len() as int)) {
            Ok((v, c2)) => Ok((v, c + c2)),
            Err(e) => Err(e),
        },
    }
}

/// The string that follows a length encoding `l`, read off the front of `r`.
#[verifier::opaque]
pub open spec fn parse_string_body(l: RdbLength, r: Seq<u8>) -> Result<(Seq<u8>, nat), RdbError> {
    match l {
        RdbLength::Length(n) => if n <= r.len() {
            Ok((r.subrange(0, n as int), n as nat))
        } else {
            Err(RdbError::Truncated)
        },
        RdbLength::Format(f) => if f <= 2 {
            let n = pow2_bytes(f);
            if n <= r.len() {
                Ok((signed_decimal(le_signed(r.subrange(0, n as int))), n))
            } else {
                Err(RdbError::Truncated)
            }
        } else if f == 3 {
            parse_lzf_string(r)
        } else {
            Err(RdbError::BadLengthEncoding)
        },
    }
}

/// A compressed string: its compressed length, its length, then the compressed bytes.
#[verifier::opaque]
pub open spec fn parse_lzf_string(r: Seq<u8>) -> Result<(Seq<u8>, nat), RdbError> {
    match parse_plain_length(r) {
        Err(e) => Err(e),
        Ok((clen, c1)) => {
            let r2 = r.subrange(c1 as int, r.len() as int);
            match parse_plain_length(r2) {
                Err(e) => Err(e),
                Ok((ulen, c2)) => {
                    let start = (c1 + c2) as int;
                    if start + clen <= r.len() {
                        match lzf_decompressed(r.subrange(start, start + clen as int), ulen as nat) {
                            Some(v) => Ok((v, (start + clen) as nat)),
                            None => Err(RdbError::BadCompressedData),
                        }
                    } else {
                        Err(RdbError::Truncated)
                    }
                },
            }
        },
    }
}

pub open spec fn pow2_bytes(f: u8) -> nat {
    if f == 0 {
        1
    } else if f == 1 {
        2
    } else {
        4
    }
}

proof fn lemma_le_bound(s: Seq<u8>)
    ensures
        le_value(s) < pow256(s.len()),
    decreases s.len(),
{
    if s.len() > 0 {
        lemma_le_bound(s.subrange(1, s.len() as int));
    }
}

/// Reads `s` as an unsigned integer, least significant byte first.
fn read_le(s: &[u8]) -> (r: u64)
    requires
        s@.len() <= 8,
    ensures
        r as nat == le_value(s@),
{
    let mut v: u64 = 0;
    let mut i: usize = s.len();
    proof {
        reveal_with_fuel(pow256, 9);
    }
    while i > 0
        invariant
            0 <= i <= s@.len(),
            s@.len() <= 8,
            v as nat == le_value(s@.subrange(i as int, s@.len() as int)),
            pow256(8) == 0x1_0000_0000_0000_0000,
        decreases i,
    {
        let ghost tail = s@.subrange(i as int, s@.len() as int);
        proof {
            lemma_le_bound(tail);
            lemma_pow256_mono(tail.len(), 7);
        }
        let b = s[i - 1];
        proof {
            assert(v * 256 + b < 0x1_0000_0000_0000_0000) by (nonlinear_arith)
                requires
                    v < pow256(7),
                    pow256(8) == 256 * pow256(7),
                    pow256(8) == 0x1_0000_0000_0000_0000,
                    b < 256,
            ;
        }
        v = b as u64 + 256 * v;
        i = i - 1;
        assert(s@.subrange(i as int, s@.len() as int).subrange(1, s@.len() - i) =~= tail);
    }
    assert(s@.subrange(0, s@.len() as int) =~= s@);
    v
}

proof fn lemma_pow256_mono(a: nat, b: nat)
    requires
        a <= b,
    ensures
        pow256(a) <= pow256(b),
    decreases b,
{
    if a < b {
        lemma_pow256_mono(a, (b - 1) as nat);
    }
}

/// Reads four bytes as an unsigned integer, most significant byte first.
fn read_be4(s: &[u8]) -> (r: u32)
    requires
        s@.len() == 4,
    ensures
        r as nat == be_value(s@),
{
    let mut v: u32 = 0;
    let mut i: usize = 0;
    while i < 4
        invariant
            0 <= i <= 4,
            s@.len() == 4,
            v as nat == be_value(s@.subrange(0, i as int)),
            v < pow256(i as nat),
        decreases 4 - i,
    {
        proof {
            reveal_with_fuel(pow256, 5);
            assert(v * 256 + s@[i as int] < pow256((i + 1) as nat)) by (nonlinear_arith)
                requires
                    v < pow256(i as nat),
                    pow256((i + 1) as nat) == 256 * pow256(i as nat),
                    s@[i as int] < 256,
            ;
            assert(pow256(4) == 0x1_0000_0000);
            lemma_pow256_mono((i + 1) as nat, 4);
        }
        v = v * 256 + s[i] as u32;
        i = i + 1;
        assert(s@.subrange(0, i as int).subrange(0, i - 1) =~= s@.subrange(0, i - 1));
    }
    assert(s@.subrange(0, 4) =~= s@);
    v
}

/// Reads a length encoding off the front of `bytes`.
pub fn extract_rdb_objlength(bytes: &[u8]) -> (r: Result<(RdbLength, &[u8]), RdbError>)
    ensures
        match r {
            Ok((l, rest)) => parse_length(bytes@) matches Ok((l2, c)) && l == l2 && c <= bytes@.len() && rest@ == bytes@.subrange(
                c as int,
                bytes@.len() as int,
            ),
            Err(e) => parse_length(bytes@) == Err::<(RdbLength, nat), RdbError>(e),
        },
{
    proof {
        reveal(parse_length);
    }
    if bytes.len() == 0 {
        return Err(RdbError::Truncated);
    }
    let b0 = bytes[0];
    let top = b0 / 64;
    if top == 0 {
        Ok((RdbLength::Length((b0 % 64) as u32), slice_subrange(bytes, 1, bytes.len())))
    } else if top == 1 {
        if bytes.len() < 2 {
            return Err(RdbError::Truncated);
        }
        let l = (b0 % 64) as u32 * 256 + bytes[1] as u32;
        Ok((RdbLength::Length(l), slice_subrange(bytes, 2, bytes.len())))
    } else if top == 2 {
        if bytes.len() < 5 {
            return Err(RdbError::Truncated);
        }
        let l = read_be4(slice_subrange(bytes, 1, 5));
        Ok((RdbLength::Length(l), slice_subrange(bytes, 5, bytes.len())))
    } else {
        Ok((RdbLength::Format(b0 % 64), slice_subrange(bytes, 1, bytes.len())))
    }
}

/// Reads a plain length off the front of `bytes`.
pub fn extract_rdb_length(bytes: &[u8]) -> (r: Result<(u32, &[u8]), RdbError>)
    ensures
        match r {
            Ok((l, rest)) => parse_plain_length(bytes@) matches Ok((l2, c)) && l == l2 && c <= bytes@.len() && rest@
                == bytes@.subrange(c as int, bytes@.len() as int),
            Err(e) => parse_plain_length(bytes@) == Err::<(u32, nat), RdbError>(e),
        },
{
    proof {
        reveal(parse_plain_length);
    }
    match extract_rdb_objlength(bytes) {
        Ok((RdbLength::Length(l), rest)) => Ok((l, rest)),
        Ok((RdbLength::Format(_), _)) => Err(RdbError::BadLengthEncoding),
        Err(e) => Err(e),
    }
}

/// Reads an integer-encoded string of `n` bytes off the front of `r`, as decimal text.
fn read_int_string(r: &[u8], n: usize) -> (v: Vec<u8>)
    requires
        n == 1 || n == 2 || n == 4,
        n <= r@.len(),
    ensures
        v@ == signed_decimal(le_signed(r@.subrange(0, n as int))),
{
    let raw = slice_subrange(r, 0, n);
    let u = read_le(raw);
    proof {
        lemma_le_bound(raw@);
        reveal_with_fuel(pow256, 5);
        lemma_pow256_mono(n as nat, 4);
    }
    let top: u64 = if n == 1 {
        0x100
    } else if n == 2 {
        0x1_0000
    } else {
        0x1_0000_0000
    };
    let iv: i64 = if raw[n - 1] >= 128 {
        u as i64 - top as i64
    } else {
        u as i64
    };
    signed_decimal_bytes(iv)
}

/// Reads a compressed string off the front of `r`.
fn read_lzf_string(r: &[u8]) -> (res: Result<(Vec<u8>, &[u8]), RdbError>)
    ensures
        match res {
            Ok((v, rest)) => parse_lzf_string(r@) matches Ok((v2, c)) && v@ == v2 && c <= r@.len() && rest@ == r@.subrange(
                c as int,
                r@.len() as int,
            ),
            Err(e) => parse_lzf_string(r@) == Err::<(Seq<u8>, nat), RdbError>(e),
        },
{
    proof {
        reveal(parse_lzf_string);
    }
    let (clen, r1) = match extract_rdb_length(r) {
        Ok(p) => p,
        Err(e) => {
            return Err(e);
        },
    };
    let (ulen, r2) = match extract_rdb_length(r1) {
        Ok(p) => p,
        Err(e) => {
            return Err(e);
        },
    };
    let ghost start = r@.len() - r2@.len();
    if clen as usize > r2.len() {
        return Err(RdbError::Truncated);
    }
    let compressed = slice_subrange(r2, 0, clen as usize);
    assert(compressed@ =~= r@.subrange(start, start + clen));
    let rest = slice_subrange(r2, clen as usize, r2.len());
    assert(rest@ =~= r@.subrange(start + clen, r@.len() as int));
    match lzf_decompress(compressed, clen_to_usize(ulen)) {
        Some(v) => Ok((v, rest)),
        None => Err(RdbError::BadCompressedData),
    }
}

fn clen_to_usize(l: u32) -> (r: usize)
    ensures
        r as nat == l as nat,
{
    l as usize
}

/// Reads a string off the front of `bytes`. An integer-encoded string (1, 2
/// or 4 bytes, two's complement, least significant first) reads as the
/// decimal text of its integer; a compressed one reads as its decompressed bytes.
pub fn extract_rdb_string(bytes: &[u8]) -> (r: Result<(Vec<u8>, &[u8]), RdbError>)
    ensures
        match r {
            Ok((v, rest)) => parse_string(bytes@) matches Ok((v2, c)) && v@ == v2 && c <= bytes@.len() && rest@ == bytes@.subrange(
                c as int,
                bytes@.len() as int,
            ),
            Err(e) => parse_string(bytes@) == Err::<(Seq<u8>, nat), RdbError>(e),
        },
{
    proof {
        reveal(parse_string);
        reveal(parse_string_body);
    }
    let (length, remaining) = match extract_rdb_objlength(bytes) {
        Ok(p) => p,
        Err(e) => {
            return Err(e);
        },
    };
    let ghost c = (bytes@.len() - remaining@.len()) as nat;
    match length {
        RdbLength::Length(l) => {
            if l as usize > remaining.len() {
                return Err(RdbError::Truncated);
            }
            let v = slice_to_vec(slice_subrange(remaining, 0, l as usize));
            let rest = slice_subrange(remaining, l as usize, remaining.len());
            assert(rest@ =~= bytes@.subrange(c + l, bytes@.len() as int));
            Ok((v, rest))
        },
        RdbLength::Format(f) => {
            if f <= 2 {
                let n: usize = if f == 0 {
                    1
                } else if f == 1 {
                    2
                } else {
                    4
                };
                if n > remaining.len() {
                    return Err(RdbError::Truncated);
                }
                let v = read_int_string(remaining, n);
                let rest = slice_subrange(remaining, n, remaining.len());
                assert(rest@ =~= bytes@.subrange(c + n, bytes@.len() as int));
                Ok((v, rest))
            } else if f == 3 {
                match read_lzf_string(remaining) {
                    Ok((v, rest)) => {
                        assert(rest@ =~= bytes@.subrange(
                            (bytes@.len() - rest@.len()) as int,
                            bytes@.len() as int,
                        ));
                        Ok((v, rest))
                    },
                    Err(e) => Err(e),
                }
            } else {
                Err(RdbError::BadLengthEncoding)
            }
        },
    }
}

/// A record of a snapshot that the reader keeps: a database selection, or a
/// string key/value pair with its deadline in milliseconds.
#[derive(Debug, Clone, PartialEq, Eq)]
pub enum SnapRecord {
    Select(u32),
    Pair { key: Vec<u8>, value: Vec<u8>, expiry: Option<u64> },
}

pub enum SnapTerm {
    Select(u32),
    Pair(Seq<u8>, Seq<u8>, Option<u64>),
}

impl View for SnapRecord {
    type V = SnapTerm;

    open spec fn view(&self) -> SnapTerm {
        match self {
            SnapRecord::Select(n) => SnapTerm::Select(*n),
            SnapRecord::Pair { key, value, expiry } => SnapTerm::Pair(key@, value@, *expiry),
        }
    }
}

pub open spec fn record_views(rs: Seq<SnapRecord>) -> Seq<SnapTerm> {
    rs.map_values(|r: SnapRecord| r@)
}

pub open spec fn prepend_record(x: SnapTerm, r: Result<Seq<SnapTerm>, RdbError>) -> Result<
    Seq<SnapTerm>,
    RdbError,
> {
    match r {
        Ok(v) => Ok(seq![x] + v),
        Err(e) => Err(e),
    }
}

/// A key/value pair whose value-type byte starts `s`, and how many bytes it takes.
#[verifier::opaque]
pub open spec fn parse_pair(s: Seq<u8>, expiry: Option<u64>) -> Result<(SnapTerm, nat), RdbError> {
    if s.len() == 0 {
        Err(RdbError::Truncated)
    } else if s[0] != 0 {
        Err(RdbError::UnsupportedValueType)
    } else {
        let r = s.subrange(1, s.len() as int);
        match parse_string(r) {
            Err(e) => Err(e),
            Ok((k, c1)) => if c1 <= r.len() {
                match parse_string(r.subrange(c1 as int, r.len() as int)) {
                    Err(e) => Err(e),
                    Ok((v, c2)) => Ok((SnapTerm::Pair(k, v, expiry), 1 + c1 + c2)),
                }
            } else {
                Err(RdbError::Truncated)
            },
        }
    }
}

/// What one step of reading yields: a record to keep, if any; how many bytes
/// it took; whether a database is selected and was selected by this step;
/// whether the end-of-file opcode was reached.
pub struct Step {
    pub rec: Option<SnapTerm>,
    pub consumed: nat,
    pub in_db: bool,
    pub fresh: bool,
    pub done: bool,
}

pub open spec fn skip(consumed: nat, in_db: bool, fresh: bool) -> Step {
    Step { rec: None, consumed, in_db, fresh, done: false }
}

/// Two strings, and how many bytes they take.
pub open spec fn parse_two_strings(r: Seq<u8>) -> Result<nat, RdbError> {
    match parse_string(r) {
        Err(e) => Err(e),
        Ok((_, c1)) => if c1 <= r.len() {
            match parse_string(r.subrange(c1 as int, r.len() as int)) {
                Err(e) => Err(e),
                Ok((_, c2)) => Ok(c1 + c2),
            }
        } else {
            Err(RdbError::Truncated)
        },
    }
}

/// Two plain lengths, and how many bytes they take.
pub open spec fn parse_two_lengths(r: Seq<u8>) -> Result<nat, RdbError> {
    match parse_plain_length(r) {
        Err(e) => Err(e),
        Ok((_, c1)) => if c1 <= r.len() {
            match parse_plain_length(r.subrange(c1 as int, r.len() as int)) {
                Err(e) => Err(e),
                Ok((_, c2)) => Ok(c1 + c2),
            }
        } else {
            Err(RdbError::Truncated)
        },
    }
}

/// A key/value pair after an expiry opcode `op`.
pub open spec fn parse_expiring(op: u8, r: Seq<u8>) -> Result<(SnapTerm, nat), RdbError> {
    let w: int = if op == OPCODE_EXPIRETIME { 4 } else { 8 };
    if r.len() < w {
        Err(RdbError::Truncated)
    } else {
        let t = le_value(r.subrange(0, w));
        let ms = if op == OPCODE_EXPIRETIME { t * 1000 } else { t };
        match parse_pair(r.subrange(w, r.len() as int), Some(ms as u64)) {
            Err(e) => Err(e),
            Ok((p, c)) => Ok((p, (w + c) as nat)),
        }
    }
}

/// One record at the front of `s`.
pub open spec fn step(s: Seq<u8>, in_db: bool, fresh: bool) -> Result<Step, RdbError> {
    if s.len() == 0 {
        Err(RdbError::Truncated)
    } else {
        let op = s[0];
        let r = s.subrange(1, s.len() as int);
        if op == OPCODE_EOF {
            Ok(Step { rec: None, consumed: 1, in_db, fresh, done: true })
        } else if op == OPCODE_SELECTDB {
            match parse_plain_length(r) {
                Err(e) => Err(e),
                Ok((n, c)) => Ok(Step { rec: Some(SnapTerm::Select(n)), consumed: 1 + c, in_db: true, fresh: true, done: false }),
            }
        } else if !in_db {
            if op == OPCODE_AUX {
                match parse_two_strings(r) {
                    Err(e) => Err(e),
                    Ok(c) => Ok(skip(1 + c, false, false)),
                }
            } else {
                Err(RdbError::UnexpectedOpcode)
            }
        } else if op == OPCODE_RESIZEDB && fresh {
            match parse_two_lengths(r) {
                Err(e) => Err(e),
                Ok(c) => Ok(skip(1 + c, true, false)),
            }
        } else if op == OPCODE_EXPIRETIME || op == OPCODE_EXPIRETIMEMS {
            match parse_expiring(op, r) {
                Err(e) => Err(e),
                Ok((p, c)) => Ok(Step { rec: Some(p), consumed: 1 + c, in_db: true, fresh: false, done: false }),
            }
        } else {
            match parse_pair(s, None) {
                Err(e) => Err(e),
                Ok((p, c)) => Ok(Step { rec: Some(p), consumed: c, in_db: true, fresh: false, done: false }),
            }
        }
    }
}

pub open spec fn prepend_opt(x: Option<SnapTerm>, r: Result<Seq<SnapTerm>, RdbError>) -> Result<
    Seq<SnapTerm>,
    RdbError,
> {
    match x {
        Some(t) => prepend_record(t, r),
        None => r,
    }
}

/// The records from `s` up to the end-of-file opcode. `in_db` tells whether a
/// database was selected; `fresh`, whether that was the last record.
pub open spec fn parse_records(s: Seq<u8>, in_db: bool, fresh: bool) -> Result<Seq<SnapTerm>, RdbError>
    decreases s.len(),
{
    match step(s, in_db, fresh) {
        Err(e) => Err(e),
        Ok(st) => if st.done {
            Ok(Seq::empty())
        } else if 0 < st.consumed <= s.len() {
            prepend_opt(st.rec, parse_records(s.subrange(st.consumed as int, s.len() as int), st.in_db, st.fresh))
        } else {
            Err(RdbError::Truncated)
        },
    }
}

/// The records of a whole snapshot.
pub open spec fn parse_snapshot(s: Seq<u8>) -> Result<Seq<SnapTerm>, RdbError> {
    if s.len() < 5 || s.subrange(0, 5) != seq![82u8, 69u8, 68u8, 73u8, 83u8] {
        Err(RdbError::BadMagic)
    } else if s.len() < 9 {
        Err(RdbError::Truncated)
    } else {
        parse_records(s.subrange(9, s.len() as int), false, false)
    }
}

/// Reads a key/value pair whose value-type byte starts `bytes`.
fn extract_pair(bytes: &[u8], expiry: Option<u64>) -> (r: Result<(SnapRecord, &[u8]), RdbError>)
    ensures
        match r {
            Ok((p, rest)) => parse_pair(bytes@, expiry) matches Ok((p2, c)) && p@ == p2 && 0 < c <= bytes@.len()
                && rest@ == bytes@.subrange(c as int, bytes@.len() as int),
            Err(e) => parse_pair(bytes@, expiry) == Err::<(SnapTerm, nat), RdbError>(e),
        },
{
    proof {
        reveal(parse_pair);
    }
    if bytes.len() == 0 {
        return Err(RdbError::Truncated);
    }
    if bytes[0] != 0 {
        return Err(RdbError::UnsupportedValueType);
    }
    let r = slice_subrange(bytes, 1, bytes.len());
    let (key, r1) = match extract_rdb_string(r) {
        Ok(p) => p,
        Err(e) => {
            return Err(e);
        },
    };
    let (value, r2) = match extract_rdb_string(r1) {
        Ok(p) => p,
        Err(e) => {
            return Err(e);
        },
    };
    assert(r2@ =~= bytes@.subrange((bytes@.len() - r2@.len()) as int, bytes@.len() as int));
    Ok((SnapRecord::Pair { key, value, expiry }, r2))
}

/// Reads one record off the front of `cur`: the record to keep, if any, what
/// follows, the new `in_db` and `fresh`, and whether the end was reached.
fn read_step(cur: &[u8], in_db: bool, fresh: bool) -> (r: Result<(Option<SnapRecord>, &[u8], bool, bool, bool), RdbError>)
    ensures
        match r {
            Ok((rec, rest, d, f, done)) => step(cur@, in_db, fresh) matches Ok(st) && st.rec == match rec {
                Some(x) => Some(x@),
                None => None::<SnapTerm>,
            } && st.in_db == d && st.fresh == f && st.done == done && (!done ==> 0 < st.consumed
                <= cur@.len() && rest@ == cur@.subrange(st.consumed as int, cur@.len() as int)),
            Err(e) => step(cur@, in_db, fresh) == Err::<Step, RdbError>(e),
        },
{
    if cur.len() == 0 {
        return Err(RdbError::Truncated);
    }
    let op = cur[0];
    let r = slice_subrange(cur, 1, cur.len());
    if op == OPCODE_EOF {
        Ok((None, r, in_db, fresh, true))
    } else if op == OPCODE_SELECTDB {
        match extract_rdb_length(r) {
            Ok((n, r1)) => {
                assert(r1@ =~= cur@.subrange((cur@.len() - r1@.len()) as int, cur@.len() as int));
                Ok((Some(SnapRecord::Select(n)), r1, true, true, false))
            },
            Err(e) => Err(e),
        }
    } else if !in_db {
        if op == OPCODE_AUX {
            let (_, r1) = match extract_rdb_string(r) {
                Ok(p) => p,
                Err(e) => {
                    return Err(e);
                },
            };
            let (_, r2) = match extract_rdb_string(r1) {
                Ok(p) => p,
                Err(e) => {
                    return Err(e);
                },
            };
            assert(r2@ =~= cur@.subrange((cur@.len() - r2@.len()) as int, cur@.len() as int));
            Ok((None, r2, false, false, false))
        } else {
            Err(RdbError::UnexpectedOpcode)
        }
    } else if op == OPCODE_RESIZEDB && fresh {
        let (_, r1) = match extract_rdb_length(r) {
            Ok(p) => p,
            Err(e) => {
                return Err(e);
            },
        };
        let (_, r2) = match extract_rdb_length(r1) {
            Ok(p) => p,
            Err(e) => {
                return Err(e);
            },
        };
        assert(r2@ =~= cur@.subrange((cur@.len() - r2@.len()) as int, cur@.len() as int));
        Ok((None, r2, true, false, false))
    } else if op == OPCODE_EXPIRETIME || op == OPCODE_EXPIRETIMEMS {
        match read_expiring(op, r) {
            Ok((p, r2)) => {
                assert(r2@ =~= cur@.subrange((cur@.len() - r2@.len()) as int, cur@.len() as int));
                Ok((Some(p), r2, true, false, false))
            },
            Err(e) => Err(e),
        }
    } else {
        match extract_pair(cur, None) {
            Ok((p, r2)) => Ok((Some(p), r2, true, false, false)),
            Err(e) => Err(e),
        }
    }
}

/// Reads a key/value pair after an expiry opcode `op`.
fn read_expiring(op: u8, r: &[u8]) -> (res: Result<(SnapRecord, &[u8]), RdbError>)
    requires
        op == OPCODE_EXPIRETIME || op == OPCODE_EXPIRETIMEMS,
    ensures
        match res {
            Ok((p, rest)) => parse_expiring(op, r@) matches Ok((p2, c)) && p@ == p2 && c <= r@.len() && rest@
                == r@.subrange(c as int, r@.len() as int),
            Err(e) => parse_expiring(op, r@) == Err::<(SnapTerm, nat), RdbError>(e),
        },
{
    let w: usize = if op == OPCODE_EXPIRETIME { 4 } else { 8 };
    if r.len() < w {
        return Err(RdbError::Truncated);
    }
    let t = read_le(slice_subrange(r, 0, w));
    proof {
        lemma_le_bound(r@.subrange(0, w as int));
        reveal_with_fuel(pow256, 5);
    }
    let ms: u64 = if op == OPCODE_EXPIRETIME { t * 1000 } else { t };
    let r1 = slice_subrange(r, w, r.len());
    match extract_pair(r1, Some(ms)) {
        Ok((p, r2)) => {
            assert(r2@ =~= r@.subrange((r@.len() - r2@.len()) as int, r@.len() as int));
            Ok((p, r2))
        },
        Err(e) => Err(e),
    }
}

/// Reads the records of a snapshot, up to its end-of-file opcode; the
/// checksum after it is not read.
pub fn parse_rdb_records(bytes: &[u8]) -> (r: Result<Vec<SnapRecord>, RdbError>)
    ensures
        match r {
            Ok(rs) => parse_snapshot(bytes@) == Ok::<Seq<SnapTerm>, RdbError>(record_views(rs@)),
            Err(e) => parse_snapshot(bytes@) == Err::<Seq<SnapTerm>, RdbError>(e),
        },
{
    if bytes.len() < 5 || !(bytes[0] == 82u8 && bytes[1] == 69u8 && bytes[2] == 68u8 && bytes[3] == 73u8
        && bytes[4] == 83u8) {
        proof {
            if bytes@.len() >= 5 && bytes@.subrange(0, 5) == seq![82u8, 69u8, 68u8, 73u8, 83u8] {
                assert(bytes@.subrange(0, 5)[0] == 82u8);
                assert(bytes@.subrange(0, 5)[1] == 69u8);
                assert(bytes@.subrange(0, 5)[2] == 68u8);
                assert(bytes@.subrange(0, 5)[3] == 73u8);
                assert(bytes@.subrange(0, 5)[4] == 83u8);
            }
        }
        return Err(RdbError::BadMagic);
    }
    assert(bytes@.subrange(0, 5) =~= seq![82u8, 69u8, 68u8, 73u8, 83u8]);
    if bytes.len() < 9 {
        return Err(RdbError::Truncated);
    }
    let body = slice_subrange(bytes, 9, bytes.len());
    let mut cur: &[u8] = body;
    let mut in_db = false;
    let mut fresh = false;
    let mut records: Vec<SnapRecord> = Vec::new();
    assert(record_views(records@) =~= Seq::<SnapTerm>::empty());
    loop
        invariant
            parse_snapshot(bytes@) == parse_records(body@, false, false),
            parse_records(body@, false, false) == prepend_all(
                record_views(records@),
                parse_records(cur@, in_db, fresh),
            ),
        decreases cur@.len(),
    {
        let ghost prev = records@;
        match read_step(cur, in_db, fresh) {
            Err(e) => {
                return Err(e);
            },
            Ok((rec, rest, d, f, done)) => {
                if done {
                    assert(record_views(records@) + Seq::<SnapTerm>::empty() =~= record_views(records@));
                    return Ok(records);
                }
                match rec {
                    Some(x) => {
                        records.push(x);
                        proof {
                            lemma_push_record(prev, x, parse_records(rest@, d, f));
                        }
                    },
                    None => {},
                }
                cur = rest;
                in_db = d;
                fresh = f;
            },
        }
    }
}

/// Prefixes `xs` to the records of a successful parse.
pub open spec fn prepend_all(xs: Seq<SnapTerm>, r: Result<Seq<SnapTerm>, RdbError>) -> Result<
    Seq<SnapTerm>,
    RdbError,
> {
    match r {
        Ok(v) => Ok(xs + v),
        Err(e) => Err(e),
    }
}

proof fn lemma_push_record(prev: Seq<SnapRecord>, x: SnapRecord, r: Result<Seq<SnapTerm>, RdbError>)
    ensures
        prepend_all(record_views(prev), prepend_record(x@, r)) == prepend_all(record_views(prev.push(x)), r),
{
    assert(record_views(prev.push(x)) =~= record_views(prev).push(x@));
    match r {
        Ok(v) => {
            assert(record_views(prev) + (seq![x@] + v) =~= record_views(prev).push(x@) + v);
        },
        Err(_) => {},
    }
}

/// A database's strings as values and deadlines.
pub open spec fn strings_view(db: RedisDb) -> Map<Seq<u8>, (Seq<u8>, Option<u64>)> {
    db.strings().map_values(|sv: DbValue| (sv.value@, sv.expiry))
}

/// The databases that records build, by number, and the one selected last.
/// Pairs whose deadline has passed at `now` are left out.
pub open spec fn load_fold(rs: Seq<SnapTerm>, now: u64) -> (Map<u32, Map<Seq<u8>, (Seq<u8>, Option<u64>)>>, Option<u32>)
    decreases rs.len(),
{
    if rs.len() == 0 {
        (Map::empty(), None)
    } else {
        let (m, cur) = load_fold(rs.subrange(0, rs.len() - 1), now);
        match rs[rs.len() - 1] {
            SnapTerm::Select(n) => (
                if m.contains_key(n) {
                    m
                } else {
                    m.insert(n, Map::empty())
                },
                Some(n),
            ),
            SnapTerm::Pair(k, v, e) => match cur {
                Some(n) => if live(e, now) && m.contains_key(n) {
                    (m.insert(n, m[n].insert(k, (v, e))), cur)
                } else {
                    (m, cur)
                },
                None => (m, cur),
            },
        }
    }
}

/// The databases of a snapshot, by number.
pub struct Rdb {
    pub databases: Vec<(u32, RedisDb)>,
}

impl Rdb {
    pub open spec fn wf(&self) -> bool {
        &&& unique_keys(self.databases@)
        &&& forall|i: int| 0 <= i < self.databases@.len() ==> (#[trigger] self.databases@[i]).1.wf()
    }

    /// The databases' strings, by number.
    pub open spec fn contents(&self) -> Map<u32, Map<Seq<u8>, (Seq<u8>, Option<u64>)>> {
        assoc_map(self.databases@).map_values(|db: RedisDb| strings_view(db))
    }
}

/// The index of database `n`.
fn find_db(dbs: &Vec<(u32, RedisDb)>, n: u32) -> (r: Option<usize>)
    ensures
        r matches Some(i) ==> i < dbs@.len() && dbs@[i as int].0 == n,
        r is None ==> !has_key(dbs@, n),
{
    let mut i: usize = 0;
    while i < dbs.len()
        invariant
            0 <= i <= dbs@.len(),
            forall|j: int| 0 <= j < i ==> dbs@[j].0 != n,
        decreases dbs@.len() - i,
    {
        if dbs[i].0 == n {
            return Some(i);
        }
        i = i + 1;
    }
    None
}

/// Builds the databases that `records` describe; pairs whose deadline has
/// passed at `now` are left out.
pub fn load_records(records: &Vec<SnapRecord>, now: u64) -> (r: Rdb)
    ensures
        r.wf(),
        r.contents() == load_fold(record_views(records@), now).0,
{
    let mut dbs: Vec<(u32, RedisDb)> = Vec::new();
    let mut cur: Option<usize> = None;
    let mut i: usize = 0;
    let ghost rs = record_views(records@);
    proof {
        assert(assoc_map(dbs@).map_values(|db: RedisDb| strings_view(db)) =~= load_fold(rs.subrange(0, 0), now).0);
    }
    while i < records.len()
        invariant
            rs == record_views(records@),
            0 <= i <= records@.len(),
            unique_keys(dbs@),
            forall|j: int| 0 <= j < dbs@.len() ==> (#[trigger] dbs@[j]).1.wf(),
            assoc_map(dbs@).map_values(|db: RedisDb| strings_view(db)) == load_fold(rs.subrange(0, i as int), now).0,
            match cur {
                Some(j) => j < dbs@.len() && load_fold(rs.subrange(0, i as int), now).1 == Some(dbs@[j as int].0),
                None => load_fold(rs.subrange(0, i as int), now).1 is None,
            },
        decreases records@.len() - i,
    {
        let ghost pre = rs.subrange(0, i as int);
        let ghost m = load_fold(pre, now).0;
        assert(rs.subrange(0, i + 1).subrange(0, i as int) =~= pre);
        assert(rs[i as int] == records@[i as int]@);
        match &records[i] {
            SnapRecord::Select(n) => {
                match find_db(&dbs, *n) {
                    Some(j) => {
                        proof {
                            lemma_assoc_at(dbs@, j as int);
                        }
                        cur = Some(j);
                    },
                    None => {
                        let db = RedisDb::new();
                        proof {
                            lemma_assoc_push(dbs@, *n, db);
                            assert(strings_view(db) =~= Map::<Seq<u8>, (Seq<u8>, Option<u64>)>::empty());
                        }
                        let ghost old_dbs = dbs@;
                        dbs.push((*n, db));
                        proof {
                            assert(assoc_map(dbs@).map_values(|db: RedisDb| strings_view(db)) =~= m.insert(
                                *n,
                                Map::empty(),
                            ));
                        }
                        cur = Some(dbs.len() - 1);
                    },
                }
            },
            SnapRecord::Pair { key, value, expiry } => {
                match cur {
                    Some(j) => {
                        let is_live = match expiry {
                            Some(t) => now < *t,
                            None => true,
                        };
                        proof {
                            lemma_assoc_at(dbs@, j as int);
                        }
                        if is_live {
                            let ghost old_dbs = dbs@;
                            let (n, mut db) = dbs.remove(j);
                            let sv = DbValue { value: crate::utils::copy_bytes(value), expiry: *expiry };
                            let ghost old_view = strings_view(db);
                            db.store(key, sv);
                            assert(strings_view(db) =~= old_view.insert(key@, (value@, *expiry)));
                            dbs.insert(j, (n, db));
                            assert(dbs@ =~= old_dbs.update(j as int, (n, db)));
                            proof {
                                lemma_assoc_update(old_dbs, j as int, n, db);
                                assert(assoc_map(dbs@).map_values(|db: RedisDb| strings_view(db)) =~= m.insert(
                                    n,
                                    m[n].insert(key@, (value@, *expiry)),
                                ));
                            }
                        }
                    },
                    None => {},
                }
            },
        }
        i = i + 1;
    }
    assert(rs.subrange(0, records@.len() as int) =~= rs);
    Rdb { databases: dbs }
}

/// Reads a snapshot into its databases; pairs whose deadline has passed at
/// `now` (milliseconds since the epoch) are left out.
pub fn parse_rdb(bytes: &[u8], now: u64) -> (r: Result<Rdb, RdbError>)
    ensures
        match r {
            Ok(rdb) => parse_snapshot(bytes@) matches Ok(rs) && rdb.wf() && rdb.contents() == load_fold(rs, now).0,
            Err(e) => parse_snapshot(bytes@) == Err::<Seq<SnapTerm>, RdbError>(e),
        },
{
    match parse_rdb_records(bytes) {
        Ok(records) => Ok(load_records(&records, now)),
        Err(e) => Err(e),
    }
}

/// The database that a server starts on: the lowest-numbered one, or a new
/// empty database numbered 0 when there is none.
pub fn select_current(databases: Vec<(u32, RedisDb)>) -> (r: (u32, RedisDb))
    requires
        forall|i: int| 0 <= i < databases@.len() ==> (#[trigger] databases@[i]).1.wf(),
    ensures
        r.1.wf(),
        databases@.len() == 0 ==> r.0 == 0 && r.1.strings() == Map::<Seq<u8>, DbValue>::empty(),
        databases@.len() > 0 ==> exists|i: int|
            0 <= i < databases@.len() && #[trigger] databases@[i] == r && forall|j: int|
                0 <= j < databases@.len() ==> r.0 <= #[trigger] databases@[j].0,
{
    let mut dbs = databases;
    if dbs.len() == 0 {
        return (0, RedisDb::new());
    }
    let mut best: usize = 0;
    let mut i: usize = 1;
    while i < dbs.len()
        invariant
            dbs@ == databases@,
            0 < dbs@.len(),
            1 <= i <= dbs@.len(),
            best < i,
            forall|j: int| 0 <= j < i ==> dbs@[best as int].0 <= #[trigger] dbs@[j].0,
        decreases dbs@.len() - i,
    {
        if dbs[i].0 < dbs[best].0 {
            best = i;
        }
        i = i + 1;
    }
    let r = dbs.remove(best);
    assert(databases@[best as int] == r);
    r
}

} // verus!
