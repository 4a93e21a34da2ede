//! The wire codec: typed protocol values, their encoding, and a decoder that
//! reads one value off the front of a byte slice.
use vstd::prelude::*;
use vstd::slice::{slice_subrange, slice_to_vec};
use crate::utils::{
    all_digits, crlf_at, decimal, decimal_bytes, digits_value, lemma_decimal_digits, lemma_line_split,
    lemma_parse_decimal, lemma_parse_signed, line_split, parse_decimal, parse_decimal_spec,
    parse_signed, parse_signed_spec, signed_decimal, signed_decimal_bytes, split_by_clrf, CR, LF,
};

verus! {

/// A protocol value. Simple strings and errors hold their text as bytes.
#[derive(Debug, PartialEq, Eq)]
pub enum RespValue {
    SimpleString(Vec<u8>),
    BulkString(Vec<u8>),
    Array(Vec<RespValue>),
    NullBulkString,
    Integer(i64),
    SimpleError(Vec<u8>),
}

/// The mathematical value that a `RespValue` stands for.
pub enum RespTerm {
    Simple(Seq<u8>),
    Bulk(Seq<u8>),
    Arr(Seq<RespTerm>),
    Null,
    Int(int),
    Error(Seq<u8>),
}

/// Why bytes do not decode to a value.
#[derive(Debug, Clone, Copy, PartialEq, Eq)]
pub enum DecodeError {
    /// The first byte is no known tag, or an integer line is not an integer.
    Malformed,
    /// The input ends before the value does.
    Truncated,
    /// An element count or byte length is not a valid decimal.
    BadLength,
    /// A bulk payload is not followed by CR-LF where its length says it ends.
    LengthMismatch,
}

pub open spec fn term_of(v: RespValue) -> RespTerm
    decreases v,
{
    match v {
        RespValue::SimpleString(s) => RespTerm::Simple(s@),
        RespValue::BulkString(b) => RespTerm::Bulk(b@),
        RespValue::Array(vs) => RespTerm::Arr(terms_of(vs@)),
        RespValue::NullBulkString => RespTerm::Null,
        RespValue::Integer(i) => RespTerm::Int(i as int),
        RespValue::SimpleError(s) => RespTerm::Error(s@),
    }
}

pub open spec fn terms_of(vs: Seq<RespValue>) -> Seq<RespTerm>
    decreases vs,
{
    if vs.len() == 0 {
        Seq::empty()
    } else {
        terms_of(vs.subrange(0, vs.len() - 1)).push(term_of(vs[vs.len() - 1]))
    }
}

pub proof fn lemma_terms_of(vs: Seq<RespValue>)
    ensures
        terms_of(vs).len() == vs.len(),
        forall|i: int| 0 <= i < vs.len() ==> #[trigger] terms_of(vs)[i] == term_of(vs[i]),
    decreases vs.len(),
{
    if vs.len() > 0 {
        lemma_terms_of(vs.subrange(0, vs.len() - 1));
    }
}

impl View for RespValue {
    type V = RespTerm;

    open spec fn view(&self) -> RespTerm {
        term_of(*self)
    }
}

pub open spec fn crlf() -> Seq<u8> {
    seq![CR, LF]
}

pub open spec fn encode(v: RespTerm) -> Seq<u8>
    decreases v,
{
    match v {
        RespTerm::Simple(s) => seq![43u8] + s + crlf(),
        RespTerm::Error(s) => seq![45u8] + s + crlf(),
        RespTerm::Int(i) => seq![58u8] + signed_decimal(i) + crlf(),
        RespTerm::Bulk(b) => seq![36u8] + decimal(b.len()) + crlf() + b + crlf(),
        RespTerm::Null => seq![36u8, 45u8, 49u8] + crlf(),
        RespTerm::Arr(es) => seq![42u8] + decimal(es.len()) + crlf() + encode_all(es),
    }
}

pub open spec fn encode_all(es: Seq<RespTerm>) -> Seq<u8>
    decreases es,
{
    if es.len() == 0 {
        Seq::empty()
    } else {
        encode(es[0]) + encode_all(es.subrange(1, es.len() as int))
    }
}

/// The values the codec carries faithfully: texts without carriage returns,
/// integers of 64 bits, lengths that fit in memory.
pub open spec fn well_formed(v: RespTerm) -> bool
    decreases v,
{
    match v {
        RespTerm::Simple(s) => !s.contains(CR),
        RespTerm::Error(s) => !s.contains(CR),
        RespTerm::Int(i) => i64::MIN <= i <= i64::MAX,
        RespTerm::Bulk(b) => b.len() <= usize::MAX,
        RespTerm::Null => true,
        RespTerm::Arr(es) => es.len() <= usize::MAX && all_well_formed(es),
    }
}

pub open spec fn all_well_formed(es: Seq<RespTerm>) -> bool
    decreases es,
{
    if es.len() == 0 {
        true
    } else {
        well_formed(es[0]) && all_well_formed(es.subrange(1, es.len() as int))
    }
}

/// The index of the CR-LF that ends the first line, if there is one.
pub open spec fn line_end(s: Seq<u8>) -> Option<int> {
    if exists|i: int| crlf_at(s, i) {
        Some(choose|i: int| crlf_at(s, i))
    } else {
        None
    }
}

/// What decoding reads off the front of `s`: a value and the rest, or the failure.
pub open spec fn parse_value(s: Seq<u8>) -> Result<(RespTerm, Seq<u8>), DecodeError>
    decreases s.len(), 0int,
{
    if s.len() == 0 {
        Err(DecodeError::Truncated)
    } else {
        let tag = s[0];
        let body = s.subrange(1, s.len() as int);
        if tag != 43u8 && tag != 45u8 && tag != 58u8 && tag != 36u8 && tag != 42u8 {
            Err(DecodeError::Malformed)
        } else {
            match line_end(body) {
                None => Err(DecodeError::Truncated),
                Some(i) => {
                    let line = body.subrange(0, i);
                    let rest = body.subrange(i + 2, body.len() as int);
                    if tag == 43u8 {
                        Ok((RespTerm::Simple(line), rest))
                    } else if tag == 45u8 {
                        Ok((RespTerm::Error(line), rest))
                    } else if tag == 58u8 {
                        match parse_signed_spec(line) {
                            Some(n) => Ok((RespTerm::Int(n as int), rest)),
                            None => Err(DecodeError::Malformed),
                        }
                    } else if tag == 36u8 {
                        if line == seq![45u8, 49u8] {
                            Ok((RespTerm::Null, rest))
                        } else {
                            match parse_decimal_spec(line) {
                                None => Err(DecodeError::BadLength),
                                Some(n) => {
                                    if rest.len() < n + 2 {
                                        Err(DecodeError::Truncated)
                                    } else if rest[n as int] == CR && rest[n + 1] == LF {
                                        Ok(
                                            (
                                                RespTerm::Bulk(rest.subrange(0, n as int)),
                                                rest.subrange(n + 2, rest.len() as int),
                                            ),
                                        )
                                    } else {
                                        Err(DecodeError::LengthMismatch)
                                    }
                                },
                            }
                        }
                    } else {
                        match parse_decimal_spec(line) {
                            None => Err(DecodeError::BadLength),
                            Some(n) => match parse_elems(rest, n as nat) {
                                Ok((es, r)) => Ok((RespTerm::Arr(es), r)),
                                Err(e) => Err(e),
                            },
                        }
                    }
                },
            }
        }
    }
}

/// Reads `n` values one after another.
pub open spec fn parse_elems(s: Seq<u8>, n: nat) -> Result<(Seq<RespTerm>, Seq<u8>), DecodeError>
    decreases s.len(), n,
{
    if n == 0 {
        Ok((Seq::empty(), s))
    } else {
        match parse_value(s) {
            Err(e) => Err(e),
            Ok((v, r)) => {
                if r.len() < s.len() {
                    match parse_elems(r, (n - 1) as nat) {
                        Ok((vs, r2)) => Ok((seq![v] + vs, r2)),
                        Err(e) => Err(e),
                    }
                } else {
                    Err(DecodeError::Malformed)
                }
            },
        }
    }
}

/// Prefixes `vs` to the values of a successful parse.
pub open spec fn prepend_terms(
    vs: Seq<RespTerm>,
    r: Result<(Seq<RespTerm>, Seq<u8>), DecodeError>,
) -> Result<(Seq<RespTerm>, Seq<u8>), DecodeError> {
    match r {
        Ok((es, rest)) => Ok((vs + es, rest)),
        Err(e) => Err(e),
    }
}

/// An array of the values of a successful parse.
pub open spec fn array_of(r: Result<(Seq<RespTerm>, Seq<u8>), DecodeError>) -> Result<
    (RespTerm, Seq<u8>),
    DecodeError,
> {
    match r {
        Ok((es, rest)) => Ok((RespTerm::Arr(es), rest)),
        Err(e) => Err(e),
    }
}

pub proof fn lemma_encode_all_push(es: Seq<RespTerm>, x: RespTerm)
    ensures
        encode_all(es.push(x)) == encode_all(es) + encode(x),
    decreases es.len(),
{
    if es.len() == 0 {
        let s1 = es.push(x);
        assert(s1[0] == x);
        assert(s1.subrange(1, 1) =~= Seq::<RespTerm>::empty());
        assert(encode_all(s1.subrange(1, 1)) == Seq::<u8>::empty());
        assert(encode_all(s1) =~= encode(x) + Seq::<u8>::empty());
        assert(encode_all(es) =~= Seq::<u8>::empty());
    } else {
        let tail = es.subrange(1, es.len() as int);
        lemma_encode_all_push(tail, x);
        assert(es.push(x).subrange(1, es.len() as int + 1) =~= tail.push(x));
        assert(encode_all(es.push(x)) =~= encode(es[0]) + encode_all(tail.push(x)));
    }
}

/// Appends the bytes of `src` to `dst`.
pub fn append_bytes(dst: &mut Vec<u8>, src: &[u8])
    ensures
        final(dst)@ == old(dst)@ + src@,
{
    let mut i: usize = 0;
    while i < src.len()
        invariant
            0 <= i <= src.len(),
            dst@ == old(dst)@ + src@.subrange(0, i as int),
        decreases src.len() - i,
    {
        dst.push(src[i]);
        i = i + 1;
        assert(dst@ =~= old(dst)@ + src@.subrange(0, i as int));
    }
    assert(src@.subrange(0, src.len() as int) =~= src@);
}

/// `tag`, then `line`, then CR-LF.
fn tagged_line(tag: u8, line: &[u8]) -> (r: Vec<u8>)
    ensures
        r@ == seq![tag] + line@ + crlf(),
{
    let mut b: Vec<u8> = vec![tag];
    append_bytes(&mut b, line);
    b.push(CR);
    b.push(LF);
    assert(b@ =~= seq![tag] + line@ + crlf());
    b
}

impl RespValue {
    /// The wire encoding of this value.
    pub fn to_bytes(&self) -> (r: Vec<u8>)
        ensures
            r@ == encode(self@),
        decreases self@,
    {
        match self {
            RespValue::SimpleString(s) => tagged_line(43u8, s.as_slice()),
            RespValue::SimpleError(s) => tagged_line(45u8, s.as_slice()),
            RespValue::Integer(i) => {
                let d = signed_decimal_bytes(*i);
                tagged_line(58u8, d.as_slice())
            },
            RespValue::NullBulkString => {
                let r: Vec<u8> = vec![36u8, 45u8, 49u8, CR, LF];
                assert(r@ =~= seq![36u8, 45u8, 49u8] + crlf());
                r
            },
            RespValue::BulkString(b) => {
                let d = decimal_bytes(b.len() as u64);
                let mut r = tagged_line(36u8, d.as_slice());
                append_bytes(&mut r, b.as_slice());
                r.push(CR);
                r.push(LF);
                assert(r@ =~= seq![36u8] + decimal(b@.len()) + crlf() + b@ + crlf());
                r
            },
            RespValue::Array(vs) => {
                let d = decimal_bytes(vs.len() as u64);
                let mut r = tagged_line(42u8, d.as_slice());
                let ghost header = r@;
                proof {
                    lemma_terms_of(vs@);
                }
                let mut i: usize = 0;
                while i < vs.len()
                    invariant
                        0 <= i <= vs.len(),
                        self@ == RespTerm::Arr(terms_of(vs@)),
                        terms_of(vs@).len() == vs@.len(),
                        forall|k: int| 0 <= k < vs.len() ==> #[trigger] terms_of(vs@)[k] == term_of(vs@[k]),
                        r@ == header + encode_all(terms_of(vs@).subrange(0, i as int)),
                    decreases vs.len() - i,
                {
                    proof {
                        let t = self@;
                        assert(t == RespTerm::Arr(terms_of(vs@)));
                        assert(t is Arr);
                        assert(decreases_to!(t => t->Arr_0));
                        assert(decreases_to!(t->Arr_0 => t->Arr_0[i as int]));
                    }
                    let mut e = vs[i].to_bytes();
                    proof {
                        lemma_encode_all_push(terms_of(vs@).subrange(0, i as int), terms_of(vs@)[i as int]);
                        assert(terms_of(vs@).subrange(0, i as int).push(terms_of(vs@)[i as int])
                            =~= terms_of(vs@).subrange(0, i + 1));
                    }
                    r.append(&mut e);
                    i = i + 1;
                    assert(r@ =~= header + encode_all(terms_of(vs@).subrange(0, i as int)));
                }
                assert(terms_of(vs@).subrange(0, vs.len() as int) =~= terms_of(vs@));
                r
            },
        }
    }
}

/// Reads one value off the front of `bytes`, and returns it with what follows.
pub fn decode(bytes: &[u8]) -> (r: Result<(RespValue, &[u8]), DecodeError>)
    ensures
        match r {
            Ok((v, rest)) => parse_value(bytes@) == Ok::<(RespTerm, Seq<u8>), DecodeError>((v@, rest@)) && rest@.len() < bytes@.len(),
            Err(e) => parse_value(bytes@) == Err::<(RespTerm, Seq<u8>), DecodeError>(e),
        },
    decreases bytes.len(),
{
    if bytes.len() == 0 {
        return Err(DecodeError::Truncated);
    }
    let tag = bytes[0];
    let body = slice_subrange(bytes, 1, bytes.len());
    assert(body@ == bytes@.subrange(1, bytes@.len() as int));
    if tag != 43u8 && tag != 45u8 && tag != 58u8 && tag != 36u8 && tag != 42u8 {
        return Err(DecodeError::Malformed);
    }
    let (line, rest) = match split_by_clrf(body) {
        Some(p) => p,
        None => {
            return Err(DecodeError::Truncated);
        },
    };
    proof {
        let i = choose|i: int| crlf_at(body@, i);
        assert(line_end(body@) == Some(i));
    }
    if tag == 43u8 {
        Ok((RespValue::SimpleString(line), rest))
    } else if tag == 45u8 {
        Ok((RespValue::SimpleError(line), rest))
    } else if tag == 58u8 {
        match parse_signed(line.as_slice()) {
            Some(n) => Ok((RespValue::Integer(n), rest)),
            None => Err(DecodeError::Malformed),
        }
    } else if tag == 36u8 {
        if line.len() == 2 && line[0] == 45u8 && line[1] == 49u8 {
            assert(line@ =~= seq![45u8, 49u8]);
            return Ok((RespValue::NullBulkString, rest));
        }
        assert(line@ != seq![45u8, 49u8]) by {
            if line@ == seq![45u8, 49u8] {
                assert(line@.len() == 2 && line@[0] == 45u8 && line@[1] == 49u8);
            }
        }
        match parse_decimal(line.as_slice()) {
            None => Err(DecodeError::BadLength),
            Some(n) => {
                if n > rest.len() as u64 || rest.len() - (n as usize) < 2 {
                    return Err(DecodeError::Truncated);
                }
                let m = n as usize;
                if rest[m] == CR && rest[m + 1] == LF {
                    let payload = slice_to_vec(slice_subrange(rest, 0, m));
                    let after = slice_subrange(rest, m + 2, rest.len());
                    Ok((RespValue::BulkString(payload), after))
                } else {
                    Err(DecodeError::LengthMismatch)
                }
            },
        }
    } else {
        match parse_decimal(line.as_slice()) {
            None => Err(DecodeError::BadLength),
            Some(n) => {
                let mut vals: Vec<RespValue> = Vec::new();
                let mut cur: &[u8] = rest;
                let mut k: u64 = 0;
                assert(parse_value(bytes@) == array_of(parse_elems(rest@, n as nat)));
                while k < n
                    invariant
                        0 <= k <= n,
                        parse_value(bytes@) == array_of(parse_elems(rest@, n as nat)),
                        vals@.len() == k,
                        cur@.len() <= rest@.len(),
                        rest@.len() < bytes@.len(),
                        parse_elems(rest@, n as nat) == prepend_terms(
                            terms_of(vals@),
                            parse_elems(cur@, (n - k) as nat),
                        ),
                    decreases n - k,
                {
                    match decode(cur) {
                        Err(e) => {
                            assert(parse_elems(cur@, (n - k) as nat) == Err::<(Seq<RespTerm>, Seq<u8>), DecodeError>(e));
                            return Err(e);
                        },
                        Ok((v, r)) => {
                            proof {
                                let ghost old_vals = vals@;
                                assert(parse_elems(cur@, (n - k) as nat) == prepend_terms(
                                    seq![v@],
                                    parse_elems(r@, (n - k - 1) as nat),
                                ));
                                assert(vals@.push(v).subrange(0, vals@.len() as int) =~= vals@);
                                assert(terms_of(vals@.push(v)) == terms_of(vals@).push(v@));
                                assert(terms_of(vals@) + seq![v@] =~= terms_of(vals@).push(v@));
                                match parse_elems(r@, (n - k - 1) as nat) {
                                    Ok((es, rr)) => {
                                        assert(terms_of(vals@) + (seq![v@] + es) =~= terms_of(vals@).push(v@) + es);
                                    },
                                    Err(_) => {},
                                }
                            }
                            vals.push(v);
                            cur = r;
                            k = k + 1;
                        },
                    }
                }
                assert(terms_of(vals@) + Seq::<RespTerm>::empty() =~= terms_of(vals@));
                Ok((RespValue::Array(vals), cur))
            },
        }
    }
}

proof fn lemma_line(tag: u8, line: Seq<u8>, rest: Seq<u8>)
    requires
        !line.contains(CR),
    ensures
        ({
            let s = seq![tag] + line + crlf() + rest;
            let body = s.subrange(1, s.len() as int);
            &&& s.len() > 0
            &&& s[0] == tag
            &&& line_end(body) == Some(line.len() as int)
            &&& body.subrange(0, line.len() as int) == line
            &&& body.subrange(line.len() as int + 2, body.len() as int) == rest
        }),
{
    let s = seq![tag] + line + crlf() + rest;
    let body = s.subrange(1, s.len() as int);
    assert(body =~= line + seq![CR, LF] + rest);
    lemma_line_split(line, rest);
    let i = choose|i: int| crlf_at(body, i);
    assert(crlf_at(body, line.len() as int)) by {
        assert forall|j: int| 0 <= j < line.len() implies body[j] != CR by {
            assert(body[j] == line[j]);
        }
    }
    crate::utils::lemma_crlf_unique(body, i, line.len() as int);
    assert(body.subrange(0, line.len() as int) =~= line);
    assert(body.subrange(line.len() as int + 2, body.len() as int) =~= rest);
}

/// Decoding reads back exactly the value that was encoded, and leaves what
/// followed it untouched.
pub proof fn lemma_round_trip(v: RespTerm, rest: Seq<u8>)
    requires
        well_formed(v),
    ensures
        parse_value(encode(v) + rest) == Ok::<(RespTerm, Seq<u8>), DecodeError>((v, rest)),
    decreases v,
{
    match v {
        RespTerm::Simple(t) => {
            lemma_line(43u8, t, rest);
            assert(encode(v) + rest =~= seq![43u8] + t + crlf() + rest);
        },
        RespTerm::Error(t) => {
            lemma_line(45u8, t, rest);
            assert(encode(v) + rest =~= seq![45u8] + t + crlf() + rest);
        },
        RespTerm::Int(i) => {
            lemma_parse_signed(i as i64);
            lemma_line(58u8, signed_decimal(i), rest);
            assert(encode(v) + rest =~= seq![58u8] + signed_decimal(i) + crlf() + rest);
        },
        RespTerm::Null => {
            let line = seq![45u8, 49u8];
            assert(!line.contains(CR)) by {
                assert forall|j: int| 0 <= j < 2 implies line[j] != CR by {}
            }
            lemma_line(36u8, line, rest);
            assert(encode(v) + rest =~= seq![36u8] + line + crlf() + rest);
        },
        RespTerm::Bulk(b) => {
            let line = decimal(b.len());
            lemma_decimal_digits(b.len());
            lemma_parse_decimal(b.len() as u64);
            let after = b + crlf() + rest;
            lemma_line(36u8, line, after);
            assert(encode(v) + rest =~= seq![36u8] + line + crlf() + after);
            assert(line != seq![45u8, 49u8]) by {
                assert(crate::utils::is_digit(line[0]));
            }
            assert(after.subrange(0, b.len() as int) =~= b);
            assert(after[b.len() as int] == CR);
            assert(after[b.len() as int + 1] == LF);
            assert(after.subrange(b.len() as int + 2, after.len() as int) =~= rest);
        },
        RespTerm::Arr(es) => {
            let line = decimal(es.len());
            lemma_decimal_digits(es.len());
            lemma_parse_decimal(es.len() as u64);
            let after = encode_all(es) + rest;
            lemma_line(42u8, line, after);
            assert(encode(v) + rest =~= seq![42u8] + line + crlf() + after);
            lemma_round_trip_all(es, rest);
        },
    }
}

/// Decoding `es.len()` values from their concatenated encodings reads them all back.
pub proof fn lemma_round_trip_all(es: Seq<RespTerm>, rest: Seq<u8>)
    requires
        all_well_formed(es),
    ensures
        parse_elems(encode_all(es) + rest, es.len()) == Ok::<(Seq<RespTerm>, Seq<u8>), DecodeError>(
            (es, rest),
        ),
    decreases es,
{
    if es.len() == 0 {
        assert(encode_all(es) + rest =~= rest);
        assert(es =~= Seq::<RespTerm>::empty());
    } else {
        let tail = es.subrange(1, es.len() as int);
        let after = encode_all(tail) + rest;
        lemma_round_trip(es[0], after);
        lemma_round_trip_all(tail, rest);
        assert(encode_all(es) + rest =~= encode(es[0]) + after);
        assert(encode(es[0]).len() > 0);
        assert(seq![es[0]] + tail =~= es);
    }
}

} // verus!
