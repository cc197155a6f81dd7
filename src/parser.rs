//! Streaming decoder: one value from the front of a byte buffer.
use vstd::prelude::*;

use crate::value::{Error, Value, decode_result, model};
use crate::wire::{
    ARRAY_SIGIL, BULK_SIGIL, CR, ERROR_SIGIL, INTEGER_SIGIL, LF, MINUS, NINE, PLUS, SIMPLE_SIGIL, ZERO,
    Field, Frame, Parsed, ParsedItems, Tail, digits_end, digits_value, first_crlf, in_i64, is_digit,
    number_field, parse, parse_items, terminator,
};
use vstd::slice::{slice_subrange, slice_to_vec};

verus! {

broadcast use vstd::std_specs::vec::group_vec_axioms;

/// What `i64`'s `FromStr` makes of a text: an optional sign (`+` or `-`) and
/// one or more decimal digits whose value fits in 64 signed bits.
pub open spec fn integer_text(t: Seq<u8>) -> Option<int> {
    let q = if t.len() > 0 && (t[0] == 45 || t[0] == 43) {
        1int
    } else {
        0int
    };
    if q < t.len() && digits_end(t, q) == t.len() {
        let mag = digits_value(t.subrange(q, t.len() as int)) as int;
        let n = if t[0] == 45 {
            -mag
        } else {
            mag
        };
        if in_i64(n) {
            Some(n)
        } else {
            None
        }
    } else {
        None
    }
}

/// The text made of an optional sign part and a digits part.
pub open spec fn joined(flag: Option<Seq<u8>>, num: Seq<u8>) -> Seq<u8> {
    match flag {
        Some(f) => f + num,
        None => num,
    }
}

/// The result that `parse_integer` gives for a text.
pub open spec fn integer_result(t: Seq<u8>) -> Result<i64, ()> {
    match integer_text(t) {
        Some(n) => Ok(n as i64),
        None => Err(()),
    }
}

proof fn lemma_digits_value_push(s: Seq<u8>, a: int, k: int)
    requires
        0 <= a <= k < s.len(),
    ensures
        digits_value(s.subrange(a, k + 1)) == digits_value(s.subrange(a, k)) * 10 + (s[k]
            - 48) as nat,
{
    assert(s.subrange(a, k + 1).drop_last() =~= s.subrange(a, k));
}

proof fn lemma_digits_value_mono(s: Seq<u8>, a: int, k: int, b: int)
    requires
        0 <= a <= k <= b <= s.len(),
    ensures
        digits_value(s.subrange(a, k)) <= digits_value(s.subrange(a, b)),
    decreases b - k,
{
    if k < b {
        lemma_digits_value_mono(s, a, k, b - 1);
        lemma_digits_value_push(s, a, b - 1);
    }
}

/// The value of the digits `s[a..b]` if it is at most `limit`.
fn digits_magnitude(s: &[u8], a: usize, b: usize, limit: u64) -> (r: Option<u64>)
    requires
        a <= b <= s@.len(),
        forall|k: int| a <= k < b ==> is_digit(#[trigger] s@[k]),
        limit >= 9,
    ensures
        match r {
            Some(m) => m == digits_value(s@.subrange(a as int, b as int)) && m <= limit,
            None => digits_value(s@.subrange(a as int, b as int)) > limit,
        },
{
    let mut acc: u64 = 0;
    let mut k: usize = a;
    assert(s@.subrange(a as int, a as int).len() == 0);
    while k < b
        invariant
            a <= k <= b <= s@.len(),
            forall|j: int| a <= j < b ==> is_digit(#[trigger] s@[j]),
            acc == digits_value(s@.subrange(a as int, k as int)),
            acc <= limit,
            limit >= 9,
        decreases b - k,
    {
        assert(is_digit(s@[k as int]));
        let d: u64 = (s[k] - ZERO) as u64;
        proof {
            lemma_digits_value_push(s@, a as int, k as int);
        }
        if acc > (limit - d) / 10 {
            proof {
                assert(acc * 10 + d > limit) by (nonlinear_arith)
                    requires
                        acc > (limit - d) / 10,
                        d <= limit,
                ;
                lemma_digits_value_mono(s@, a as int, k as int + 1, b as int);
            }
            return None;
        }
        assert(acc * 10 + d <= limit) by (nonlinear_arith)
            requires
                acc <= (limit - d) / 10,
                d <= limit,
        ;
        acc = acc * 10 + d;
        k = k + 1;
    }
    Some(acc)
}

/// The end of the run of digits that starts at `q`.
fn scan_digits(s: &[u8], q: usize) -> (e: usize)
    requires
        q <= s@.len(),
    ensures
        e == digits_end(s@, q as int),
        q <= e <= s@.len(),
        forall|k: int| q <= k < e ==> is_digit(#[trigger] s@[k]),
{
    let mut k: usize = q;
    while k < s.len() && s[k] >= ZERO && s[k] <= NINE
        invariant
            q <= k <= s@.len(),
            digits_end(s@, q as int) == digits_end(s@, k as int),
            forall|j: int| q <= j < k ==> is_digit(#[trigger] s@[j]),
        decreases s@.len() - k,
    {
        k = k + 1;
    }
    k
}

/// Turns a sign and a magnitude that fits into the signed value.
fn signed_value(neg: bool, mag: u64) -> (r: i64)
    requires
        if neg {
            mag <= 0x8000_0000_0000_0000
        } else {
            mag <= 0x7fff_ffff_ffff_ffff
        },
    ensures
        r == (if neg {
            -(mag as int)
        } else {
            mag as int
        }),
{
    if neg {
        if mag == 0x8000_0000_0000_0000 {
            i64::MIN
        } else {
            -(mag as i64)
        }
    } else {
        mag as i64
    }
}

/// Parses an optional sign part followed by a digits part, as one decimal `i64`.
pub fn parse_integer(parts: (Option<&[u8]>, &[u8])) -> (r: Result<i64, ()>)
    ensures
        r == integer_result(
            joined(
                match parts.0 {
                    Some(f) => Some(f@),
                    None => None,
                },
                parts.1@,
            ),
        ),
{
    let (flag, num) = parts;
    let mut text: Vec<u8> = Vec::new();
    if let Some(f) = flag {
        text = slice_to_vec(f);
    }
    let ghost head = text@;
    let mut i: usize = 0;
    while i < num.len()
        invariant
            i <= num@.len(),
            text@ == head + num@.subrange(0, i as int),
        decreases num@.len() - i,
    {
        text.push(num[i]);
        i = i + 1;
        assert(text@ =~= head + num@.subrange(0, i as int));
    }
    assert(num@.subrange(0, num@.len() as int) =~= num@);
    integer_from_text(text.as_slice())
}

/// `i64`'s decimal text syntax, on bytes.
fn integer_from_text(t: &[u8]) -> (r: Result<i64, ()>)
    ensures
        r == integer_result(t@),
{
    let signed = t.len() > 0 && (t[0] == MINUS || t[0] == PLUS);
    let q: usize = if signed {
        1
    } else {
        0
    };
    if q >= t.len() {
        return Err(());
    }
    let e = scan_digits(t, q);
    if e != t.len() {
        return Err(());
    }
    let neg = t[0] == MINUS;
    let limit: u64 = if neg {
        0x8000_0000_0000_0000
    } else {
        0x7fff_ffff_ffff_ffff
    };
    match digits_magnitude(t, q, e, limit) {
        Some(mag) => Ok(signed_value(neg, mag)),
        None => Err(()),
    }
}

/// The terminator at `i`.
fn check_terminator(s: &[u8], i: usize) -> (r: Result<(), Error>)
    ensures
        match terminator(s@, i as int) {
            Tail::Found => r is Ok,
            Tail::Incomplete => r == Err::<(), Error>(Error::NeedMoreData),
            Tail::Invalid => r == Err::<(), Error>(Error::InvalidData),
        },
{
    if i < s.len() && s.len() - i >= 2 && s[i] == CR && s[i + 1] == LF {
        Ok(())
    } else if i >= s.len() || (s.len() - i == 1 && s[i] == CR) {
        Err(Error::NeedMoreData)
    } else {
        Err(Error::InvalidData)
    }
}

/// A signed decimal field and its terminator, starting at `i`.
fn number_at(s: &[u8], i: usize) -> (r: Result<(i64, usize), Error>)
    ensures
        match number_field(s@, i as int) {
            Field::Num(n, e) => r == Ok::<(i64, usize), Error>((n as i64, e as usize)) && i < e
                <= s@.len(),
            Field::Incomplete => r == Err::<(i64, usize), Error>(Error::NeedMoreData),
            Field::Invalid => r == Err::<(i64, usize), Error>(Error::InvalidData),
        },
{
    if i >= s.len() {
        return Err(Error::NeedMoreData);
    }
    let neg = s[i] == MINUS;
    let q: usize = if neg {
        i + 1
    } else {
        i
    };
    let e = scan_digits(s, q);
    if e >= s.len() {
        return Err(Error::NeedMoreData);
    }
    if e == q {
        return Err(Error::InvalidData);
    }
    let limit: u64 = if neg {
        0x8000_0000_0000_0000
    } else {
        0x7fff_ffff_ffff_ffff
    };
    let n = match digits_magnitude(s, q, e, limit) {
        Some(mag) => signed_value(neg, mag),
        None => {
            return Err(Error::InvalidData);
        },
    };
    match check_terminator(s, e) {
        Ok(()) => Ok((n, e + 2)),
        Err(err) => Err(err),
    }
}

/// The first terminator at or after `i`.
fn find_crlf(s: &[u8], i: usize) -> (r: Option<usize>)
    ensures
        match first_crlf(s@, i as int) {
            Some(j) => r == Some(j as usize) && i <= j && j + 2 <= s@.len(),
            None => r is None,
        },
{
    let mut j: usize = i;
    while j < s.len() && s.len() - j >= 2
        invariant
            i <= j,
            first_crlf(s@, i as int) == first_crlf(s@, j as int),
        decreases s@.len() - j,
    {
        if s[j] == CR && s[j + 1] == LF {
            return Some(j);
        }
        j = j + 1;
    }
    None
}

/// A copy of `s[a..b]`.
fn copy_range(s: &[u8], a: usize, b: usize) -> (r: Vec<u8>)
    requires
        a <= b <= s@.len(),
    ensures
        r@ == s@.subrange(a as int, b as int),
{
    slice_to_vec(slice_subrange(s, a, b))
}

/// The items decoded so far, put in front of what decoding the rest gives.
pub open spec fn prepend(pre: Seq<Frame>, r: ParsedItems) -> ParsedItems {
    match r {
        ParsedItems::Done(fs, end) => ParsedItems::Done(pre + fs, end),
        other => other,
    }
}

/// Decodes the value that starts at position `p` of `s`.
fn parse_at(s: &[u8], p: usize) -> (r: Result<(usize, Value), Error>)
    ensures
        match parse(s@, p as int) {
            Parsed::Done(f, end) => r is Ok && r->Ok_0.0 == end && r->Ok_0.1@ == f,
            Parsed::Incomplete => r == Err::<(usize, Value), Error>(Error::NeedMoreData),
            Parsed::Invalid => r == Err::<(usize, Value), Error>(Error::InvalidData),
        },
        r is Ok ==> p < r->Ok_0.0 <= s@.len(),
    decreases s@.len() - p,
{
    if p >= s.len() {
        return Err(Error::NeedMoreData);
    }
    let sigil = s[p];
    if sigil == SIMPLE_SIGIL || sigil == ERROR_SIGIL {
        match find_crlf(s, p + 1) {
            None => Err(Error::NeedMoreData),
            Some(j) => {
                let body = copy_range(s, p + 1, j);
                if sigil == SIMPLE_SIGIL {
                    Ok((j + 2, Value::SimpleString(body)))
                } else {
                    Ok((j + 2, Value::Error(body)))
                }
            },
        }
    } else if sigil == INTEGER_SIGIL {
        match number_at(s, p + 1) {
            Ok((n, e)) => Ok((e, Value::Integer(n))),
            Err(err) => Err(err),
        }
    } else if sigil == BULK_SIGIL {
        let (n, e) = match number_at(s, p + 1) {
            Ok(x) => x,
            Err(err) => {
                return Err(err);
            },
        };
        if n < 0 {
            return Ok((e, Value::BulkString(None)));
        }
        if n as u64 > (s.len() - e) as u64 {
            return Err(Error::NeedMoreData);
        }
        let end = e + n as usize;
        match check_terminator(s, end) {
            Ok(()) => Ok((end + 2, Value::BulkString(Some(copy_range(s, e, end))))),
            Err(err) => Err(err),
        }
    } else if sigil == ARRAY_SIGIL {
        let (n, e) = match number_at(s, p + 1) {
            Ok(x) => x,
            Err(err) => {
                return Err(err);
            },
        };
        if n < 0 {
            return Ok((e, Value::Array(None)));
        }
        let count = n as u64;
        let mut items: Vec<Value> = Vec::new();
        let ghost mut models: Seq<Frame> = Seq::empty();
        let mut pos: usize = e;
        let mut k: u64 = 0;
        assert(prepend(models, parse_items(s@, e as int, count as nat)) == parse_items(
            s@,
            e as int,
            count as nat,
        )) by {
            match parse_items(s@, e as int, count as nat) {
                ParsedItems::Done(fs, end) => {
                    assert(models + fs =~= fs);
                },
                _ => {},
            }
        }
        while k < count
            invariant
                p < e <= pos <= s@.len(),
                k <= count,
                items@.len() == models.len(),
                forall|j: int| 0 <= j < models.len() ==> #[trigger] model(items@[j]) == models[j],
                parse(s@, p as int) == match parse_items(s@, e as int, count as nat) {
                    ParsedItems::Done(fs, end) => Parsed::Done(Frame::Array(Some(fs)), end),
                    ParsedItems::Incomplete => Parsed::Incomplete,
                    ParsedItems::Invalid => Parsed::Invalid,
                },
                parse_items(s@, e as int, count as nat) == prepend(
                    models,
                    parse_items(s@, pos as int, (count - k) as nat),
                ),
            decreases count - k,
        {
            match parse_at(s, pos) {
                Ok((q, v)) => {
                    proof {
                        let m = (count - k) as nat;
                        let rest = parse_items(s@, q as int, (m - 1) as nat);
                        assert(parse_items(s@, pos as int, m) == match rest {
                            ParsedItems::Done(fs, end) => ParsedItems::Done(seq![v@] + fs, end),
                            ParsedItems::Incomplete => ParsedItems::Incomplete,
                            ParsedItems::Invalid => ParsedItems::Invalid,
                        });
                        match rest {
                            ParsedItems::Done(fs, end) => {
                                assert(models + (seq![v@] + fs) =~= models.push(v@) + fs);
                            },
                            _ => {},
                        }
                        models = models.push(v@);
                    }
                    items.push(v);
                    pos = q;
                    k = k + 1;
                },
                Err(err) => {
                    return Err(err);
                },
            }
        }
        let ghost whole = Frame::Array(Some(models));
        let value = Value::Array(Some(items));
        assert(value@ == whole) by {
            assert(value@ == model(value));
            let ms = value@->Array_0->Some_0;
            assert(ms.len() == models.len());
            assert forall|j: int| 0 <= j < models.len() implies ms[j] == models[j] by {
                assert(model(items@[j]) == models[j]);
            }
            assert(ms =~= models);
        }
        Ok((pos, value))
    } else {
        Err(Error::InvalidData)
    }
}

/// Decodes the value at the start of `buf`, returning the unconsumed rest.
pub fn parse_resp_value(buf: &[u8]) -> (r: Result<(&[u8], Value), Error>)
    ensures
        decode_result(buf@, r),
{
    match parse_at(buf, 0) {
        Ok((end, v)) => Ok((slice_subrange(buf, end, buf.len()), v)),
        Err(err) => Err(err),
    }
}

} // verus!
