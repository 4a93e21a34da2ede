//! Byte-level helpers shared by the codec and the command parser: decimal
//! numbers and CR-LF framed lines.
use vstd::prelude::*;
use vstd::slice::{slice_subrange, slice_to_vec};

verus! {

pub const CR: u8 = 13;

pub const LF: u8 = 10;

pub open spec fn is_digit(b: u8) -> bool {
    48 <= b <= 57
}

pub open spec fn all_digits(s: Seq<u8>) -> bool {
    forall|i: int| 0 <= i < s.len() ==> is_digit(#[trigger] s[i])
}

/// The number that a run of decimal digits stands for (most significant first).
pub open spec fn digits_value(s: Seq<u8>) -> nat
    decreases s.len(),
{
    if s.len() == 0 {
        0
    } else {
        digits_value(s.drop_last()) * 10 + (s.last() - 48) as nat
    }
}

/// The shortest decimal writing of `n`.
pub open spec fn decimal(n: nat) -> Seq<u8>
    decreases n,
{
    if n < 10 {
        seq![(48 + n) as u8]
    } else {
        decimal(n / 10).push((48 + n % 10) as u8)
    }
}

/// What a run of digits stands for, if there is at least one and it fits in a `u64`.
pub open spec fn parse_digits_spec(s: Seq<u8>) -> Option<u64> {
    if s.len() > 0 && all_digits(s) && digits_value(s) <= u64::MAX {
        Some(digits_value(s) as u64)
    } else {
        None
    }
}

/// What an unsigned decimal stands for: an optional `+`, then at least one
/// digit, with a value that fits in a `u64`.
pub open spec fn parse_decimal_spec(s: Seq<u8>) -> Option<u64> {
    if s.len() > 0 && s[0] == 43u8 {
        parse_digits_spec(s.drop_first())
    } else {
        parse_digits_spec(s)
    }
}

/// The decimal writing of a signed integer: a minus sign for negative values.
pub open spec fn signed_decimal(i: int) -> Seq<u8> {
    if i < 0 {
        seq![45u8] + decimal((-i) as nat)
    } else {
        decimal(i as nat)
    }
}

/// What a signed decimal stands for, if it is one and fits in an `i64`.
pub open spec fn parse_signed_spec(s: Seq<u8>) -> Option<i64> {
    if s.len() > 0 && s[0] == 45u8 {
        let d = s.drop_first();
        if d.len() > 0 && all_digits(d) && digits_value(d) <= 0x8000_0000_0000_0000 {
            Some((-digits_value(d)) as i64)
        } else {
            None
        }
    } else {
        match parse_decimal_spec(s) {
            Some(v) => if v <= i64::MAX {
                Some(v as i64)
            } else {
                None
            },
            None => None,
        }
    }
}

pub proof fn lemma_decimal_digits(n: nat)
    ensures
        decimal(n).len() > 0,
        all_digits(decimal(n)),
        digits_value(decimal(n)) == n,
        !decimal(n).contains(CR),
    decreases n,
{
    if n < 10 {
        assert(decimal(n).drop_last() =~= Seq::<u8>::empty());
        assert(digits_value(decimal(n).drop_last()) == 0);
    } else {
        lemma_decimal_digits(n / 10);
        let d = decimal(n);
        assert(d.drop_last() =~= decimal(n / 10));
        assert(digits_value(d) == (n / 10) * 10 + n % 10);
        assert forall|i: int| 0 <= i < d.len() implies is_digit(#[trigger] d[i]) by {
            if i < d.len() - 1 {
                assert(d[i] == decimal(n / 10)[i]);
            }
        }
        assert forall|i: int| 0 <= i < d.len() implies d[i] != CR by {
            if i < d.len() - 1 {
                assert(d[i] == decimal(n / 10)[i]);
            }
        }
    }
    assert(!decimal(n).contains(CR)) by {
        let d = decimal(n);
        assert forall|i: int| 0 <= i < d.len() implies d[i] != CR by {
            assert(is_digit(d[i]));
        }
    }
}

pub proof fn lemma_parse_decimal(n: u64)
    ensures
        parse_decimal_spec(decimal(n as nat)) == Some(n),
{
    lemma_decimal_digits(n as nat);
    assert(is_digit(decimal(n as nat)[0]));
}

pub proof fn lemma_parse_signed(i: i64)
    ensures
        parse_signed_spec(signed_decimal(i as int)) == Some(i),
        !signed_decimal(i as int).contains(CR),
{
    if i < 0 {
        let d = decimal((-i) as nat);
        lemma_decimal_digits((-i) as nat);
        let s = signed_decimal(i as int);
        assert(s.drop_first() =~= d);
        assert forall|k: int| 0 <= k < s.len() implies s[k] != CR by {
            if k > 0 {
                assert(s[k] == d[k - 1]);
            }
        }
    } else {
        lemma_decimal_digits(i as nat);
        lemma_parse_decimal(i as u64);
        assert(decimal(i as nat)[0] != 45u8) by {
            assert(is_digit(decimal(i as nat)[0]));
        }
    }
}

proof fn lemma_digits_value_prefix(s: Seq<u8>, i: int)
    requires
        0 <= i <= s.len(),
    ensures
        digits_value(s.subrange(0, i)) <= digits_value(s),
    decreases s.len() - i,
{
    if i < s.len() {
        lemma_digits_value_prefix(s, i + 1);
        assert(s.subrange(0, i + 1).drop_last() =~= s.subrange(0, i));
    } else {
        assert(s.subrange(0, i) =~= s);
    }
}

/// Writes `n` in decimal.
pub fn decimal_bytes(n: u64) -> (r: Vec<u8>)
    ensures
        r@ == decimal(n as nat),
    decreases n,
{
    if n < 10 {
        vec![48u8 + n as u8]
    } else {
        let mut v = decimal_bytes(n / 10);
        v.push(48u8 + (n % 10) as u8);
        v
    }
}

/// Writes `i` in decimal, with a minus sign when it is negative.
pub fn signed_decimal_bytes(i: i64) -> (r: Vec<u8>)
    ensures
        r@ == signed_decimal(i as int),
{
    if i < 0 {
        let m: u64 = if i == i64::MIN {
            0x8000_0000_0000_0000u64
        } else {
            (-i) as u64
        };
        let mut v: Vec<u8> = vec![45u8];
        let mut d = decimal_bytes(m);
        v.append(&mut d);
        v
    } else {
        decimal_bytes(i as u64)
    }
}

/// Reads a run of digits; `None` unless every byte is a digit, there is at
/// least one, and the value fits in a `u64`.
fn parse_digits(s: &[u8]) -> (r: Option<u64>)
    ensures
        r == parse_digits_spec(s@),
{
    if s.len() == 0 {
        return None;
    }
    let mut v: u64 = 0;
    let mut i: usize = 0;
    while i < s.len()
        invariant
            0 <= i <= s.len(),
            all_digits(s@.subrange(0, i as int)),
            v as nat == digits_value(s@.subrange(0, i as int)),
        decreases s.len() - i,
    {
        let b = s[i];
        assert(s@.subrange(0, i + 1).drop_last() =~= s@.subrange(0, i as int));
        if b < 48 || b > 57 {
            assert(!all_digits(s@)) by {
                assert(!is_digit(s@[i as int]));
            }
            return None;
        }
        let d = (b - 48) as u64;
        if v > (u64::MAX - d) / 10 {
            proof {
                assert(digits_value(s@.subrange(0, i + 1)) > u64::MAX) by (nonlinear_arith)
                    requires
                        digits_value(s@.subrange(0, i + 1)) == v * 10 + d,
                        v > (u64::MAX - d) / 10,
                        d <= 9,
                ;
                lemma_digits_value_prefix(s@, i + 1);
            }
            return None;
        }
        proof {
            assert(v * 10 + d <= u64::MAX) by (nonlinear_arith)
                requires
                    v <= (u64::MAX - d) / 10,
                    d <= 9,
            ;
        }
        v = v * 10 + d;
        i = i + 1;
        assert(all_digits(s@.subrange(0, i as int))) by {
            assert forall|k: int| 0 <= k < i implies is_digit(#[trigger] s@.subrange(0, i as int)[k]) by {
                if k < i - 1 {
                    assert(s@.subrange(0, i as int)[k] == s@.subrange(0, i - 1)[k]);
                }
            }
        }
    }
    assert(s@.subrange(0, s.len() as int) =~= s@);
    Some(v)
}

/// Reads an unsigned decimal: an optional `+`, then at least one digit, with a
/// value that fits in a `u64`.
pub fn parse_decimal(s: &[u8]) -> (r: Option<u64>)
    ensures
        r == parse_decimal_spec(s@),
{
    if s.len() > 0 && s[0] == 43u8 {
        let rest = slice_subrange(s, 1, s.len());
        assert(rest@ =~= s@.drop_first());
        parse_digits(rest)
    } else {
        parse_digits(s)
    }
}

/// Reads a signed decimal (an optional minus sign, then digits) that fits in an `i64`.
pub fn parse_signed(s: &[u8]) -> (r: Option<i64>)
    ensures
        r == parse_signed_spec(s@),
{
    if s.len() > 0 && s[0] == 45u8 {
        let rest = slice_subrange(s, 1, s.len());
        assert(rest@ =~= s@.drop_first());
        match parse_digits(rest) {
            Some(m) => {
                if m <= 0x8000_0000_0000_0000u64 {
                    if m == 0x8000_0000_0000_0000u64 {
                        Some(i64::MIN)
                    } else {
                        Some(-(m as i64))
                    }
                } else {
                    None
                }
            },
            None => None,
        }
    } else {
        match parse_decimal(s) {
            Some(m) => {
                if m <= i64::MAX as u64 {
                    Some(m as i64)
                } else {
                    None
                }
            },
            None => None,
        }
    }
}

/// Reads an unsigned decimal (an optional `+`, then digits) that fits in a `usize`.
pub fn bytes2usize(bytes: &[u8]) -> (r: Option<usize>)
    ensures
        r is Some <==> (parse_decimal_spec(bytes@) is Some && parse_decimal_spec(bytes@)->0
            <= usize::MAX),
        r is Some ==> r->0 as int == parse_decimal_spec(bytes@)->0,
{
    match parse_decimal(bytes) {
        Some(v) => {
            if v <= usize::MAX as u64 {
                Some(v as usize)
            } else {
                None
            }
        },
        None => None,
    }
}

/// `i` is the first carriage return of `s`, and a line feed follows it.
pub open spec fn crlf_at(s: Seq<u8>, i: int) -> bool {
    &&& 0 <= i
    &&& i + 1 < s.len()
    &&& s[i] == CR
    &&& s[i + 1] == LF
    &&& forall|j: int| 0 <= j < i ==> s[j] != CR
}

/// A line and what follows its CR-LF; `None` where the first carriage return
/// is not followed by a line feed, or there is none.
pub open spec fn line_split(s: Seq<u8>) -> Option<(Seq<u8>, Seq<u8>)> {
    if exists|i: int| crlf_at(s, i) {
        let i = choose|i: int| crlf_at(s, i);
        Some((s.subrange(0, i), s.subrange(i + 2, s.len() as int)))
    } else {
        None
    }
}

pub proof fn lemma_crlf_unique(s: Seq<u8>, i: int, k: int)
    requires
        crlf_at(s, i),
        crlf_at(s, k),
    ensures
        i == k,
{
}

/// A line without carriage returns, followed by CR-LF, splits back into itself.
pub proof fn lemma_line_split(d: Seq<u8>, rest: Seq<u8>)
    requires
        !d.contains(CR),
    ensures
        line_split(d + seq![CR, LF] + rest) == Some((d, rest)),
{
    let s = d + seq![CR, LF] + rest;
    let n = d.len() as int;
    assert(crlf_at(s, n)) by {
        assert forall|j: int| 0 <= j < n implies s[j] != CR by {
            assert(s[j] == d[j]);
        }
    }
    let i = choose|i: int| crlf_at(s, i);
    lemma_crlf_unique(s, i, n);
    assert(s.subrange(0, n) =~= d);
    assert(s.subrange(n + 2, s.len() as int) =~= rest);
}

/// Splits `bytes` at its first CR-LF: the line before it, and what follows.
pub fn split_by_clrf(bytes: &[u8]) -> (r: Option<(Vec<u8>, &[u8])>)
    ensures
        r matches Some((d, rest)) ==> line_split(bytes@) == Some((d@, rest@)),
        r is None ==> line_split(bytes@) is None,
{
    let mut i: usize = 0;
    while i < bytes.len()
        invariant
            0 <= i <= bytes.len(),
            forall|j: int| 0 <= j < i ==> bytes@[j] != CR,
        decreases bytes.len() - i,
    {
        if bytes[i] == CR {
            if i + 1 < bytes.len() && bytes[i + 1] == LF {
                let data = slice_to_vec(slice_subrange(bytes, 0, i));
                let rest = slice_subrange(bytes, i + 2, bytes.len());
                proof {
                    assert(crlf_at(bytes@, i as int));
                    let k = choose|k: int| crlf_at(bytes@, k);
                    lemma_crlf_unique(bytes@, k, i as int);
                }
                return Some((data, rest));
            } else {
                assert forall|k: int| !crlf_at(bytes@, k) by {
                    if crlf_at(bytes@, k) {
                        if k < i {
                        } else if k > i {
                            assert(bytes@[i as int] != CR);
                        }
                    }
                }
                return None;
            }
        }
        i = i + 1;
    }
    assert forall|k: int| !crlf_at(bytes@, k) by {
        if crlf_at(bytes@, k) {
            assert(bytes@[k] != CR);
        }
    }
    None
}

} // verus!

verus! {

/// A fresh copy of a byte string.
pub fn copy_bytes(v: &Vec<u8>) -> (r: Vec<u8>)
    ensures
        r@ == v@,
{
    slice_to_vec(v.as_slice())
}

/// The byte strings' contents.
pub open spec fn byte_views(v: Seq<Vec<u8>>) -> Seq<Seq<u8>> {
    v.map_values(|x: Vec<u8>| x@)
}

} // verus!

verus! {

pub open spec fn lower_byte(b: u8) -> u8 {
    if 65 <= b <= 90 {
        (b + 32) as u8
    } else {
        b
    }
}

/// ASCII lower case.
pub open spec fn lower(s: Seq<u8>) -> Seq<u8> {
    s.map_values(|b: u8| lower_byte(b))
}

/// The bytes of `s` in ASCII lower case.
pub fn to_lower(s: &[u8]) -> (r: Vec<u8>)
    ensures
        r@ == lower(s@),
{
    let mut r: Vec<u8> = Vec::new();
    let mut i: usize = 0;
    while i < s.len()
        invariant
            0 <= i <= s@.len(),
            r@ == lower(s@.subrange(0, i as int)),
        decreases s@.len() - i,
    {
        let b = s[i];
        let l = if 65 <= b && b <= 90 {
            b + 32
        } else {
            b
        };
        r.push(l);
        i = i + 1;
        assert(r@ =~= lower(s@.subrange(0, i as int)));
    }
    assert(s@.subrange(0, s@.len() as int) =~= s@);
    r
}

pub fn bytes_eq(a: &[u8], b: &[u8]) -> (r: bool)
    ensures
        r == (a@ == b@),
{
    if a.len() != b.len() {
        return false;
    }
    let mut i: usize = 0;
    while i < a.len()
        invariant
            0 <= i <= a@.len(),
            a@.len() == b@.len(),
            forall|j: int| 0 <= j < i ==> a@[j] == b@[j],
        decreases a@.len() - i,
    {
        if a[i] != b[i] {
            return false;
        }
        i = i + 1;
    }
    assert(a@ =~= b@);
    true
}

/// `s`, read case-insensitively, is the lower-case word `w`.
pub fn is_word(s: &[u8], w: &[u8]) -> (r: bool)
    ensures
        r == (lower(s@) == w@),
{
    let l = to_lower(s);
    bytes_eq(l.as_slice(), w)
}

/// `i` is the first `-` of `s`.
pub open spec fn dash_at(s: Seq<u8>, i: int) -> bool {
    &&& 0 <= i < s.len()
    &&& s[i] == 45u8
    &&& forall|j: int| 0 <= j < i ==> s[j] != 45u8
}

/// The parts of `s` before and after its first `-`.
pub open spec fn split_dash(s: Seq<u8>) -> Option<(Seq<u8>, Seq<u8>)> {
    if exists|i: int| dash_at(s, i) {
        let i = choose|i: int| dash_at(s, i);
        Some((s.subrange(0, i), s.subrange(i + 1, s.len() as int)))
    } else {
        None
    }
}

/// Splits `s` at its first `-`.
pub fn find_dash(s: &[u8]) -> (r: Option<(&[u8], &[u8])>)
    ensures
        r matches Some((a, b)) ==> split_dash(s@) == Some((a@, b@)),
        r is None ==> split_dash(s@) is None,
{
    let mut i: usize = 0;
    while i < s.len()
        invariant
            0 <= i <= s@.len(),
            forall|j: int| 0 <= j < i ==> s@[j] != 45u8,
        decreases s@.len() - i,
    {
        if s[i] == 45u8 {
            proof {
                assert(dash_at(s@, i as int));
                let k = choose|k: int| dash_at(s@, k);
                assert(k == i) by {
                    if k < i {
                    } else if k > i {
                        assert(s@[i as int] != 45u8);
                    }
                }
            }
            return Some((slice_subrange(s, 0, i), slice_subrange(s, i + 1, s.len())));
        }
        i = i + 1;
    }
    assert forall|k: int| !dash_at(s@, k) by {
        if dash_at(s@, k) {
            assert(s@[k] != 45u8);
        }
    }
    None
}

} // verus!
