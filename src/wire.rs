//! The wire format as mathematics: the value model, what a value encodes to,
//! and the streaming grammar that the decoder follows.
use vstd::prelude::*;
use vstd::seq_lib::lemma_flatten_concat;

verus! {

/// Sigil of a simple string, `+`.
pub const SIMPLE_SIGIL: u8 = 43;

/// Sigil of an error, `-`.
pub const ERROR_SIGIL: u8 = 45;

/// Sigil of an integer, `:`.
pub const INTEGER_SIGIL: u8 = 58;

/// Sigil of a bulk string, `$`.
pub const BULK_SIGIL: u8 = 36;

/// Sigil of an array, `*`.
pub const ARRAY_SIGIL: u8 = 42;

/// `-` before a negative number.
pub const MINUS: u8 = 45;

/// `+` before a number, which only `i64`'s own text syntax admits.
pub const PLUS: u8 = 43;

/// The digit `0`.
pub const ZERO: u8 = 48;

/// The digit `9`.
pub const NINE: u8 = 57;

/// Carriage return.
pub const CR: u8 = 13;

/// Line feed.
pub const LF: u8 = 10;

/// The mathematical model of a protocol value.
pub enum Frame {
    SimpleString(Seq<u8>),
    Error(Seq<u8>),
    Integer(i64),
    BulkString(Option<Seq<u8>>),
    Array(Option<Seq<Frame>>),
}

/// Outcome of decoding one value that starts at a given position.
pub enum Parsed {
    /// The value, and the position just after its encoding.
    Done(Frame, int),
    Incomplete,
    Invalid,
}

/// Outcome of decoding a run of values, one after the other.
pub enum ParsedItems {
    Done(Seq<Frame>, int),
    Incomplete,
    Invalid,
}

/// Outcome of reading a decimal length or integer field and its terminator.
pub enum Field {
    /// The value, and the position just after the terminator.
    Num(int, int),
    Incomplete,
    Invalid,
}

/// Outcome of looking for the two-byte terminator at a position.
pub enum Tail {
    Found,
    Incomplete,
    Invalid,
}

pub open spec fn crlf() -> Seq<u8> {
    seq![CR, LF]
}

/// The ASCII decimal digits of a natural number, without leading zeros.
pub open spec fn digits_of(n: nat) -> Seq<u8>
    decreases n,
{
    if n < 10 {
        seq![(n + ZERO) as u8]
    } else {
        digits_of(n / 10).push((n % 10 + ZERO) as u8)
    }
}

/// The ASCII decimal text of an integer, with `-` before a negative one.
pub open spec fn decimal(i: int) -> Seq<u8> {
    if i < 0 {
        seq![MINUS] + digits_of((-i) as nat)
    } else {
        digits_of(i as nat)
    }
}

/// The bytes that a value encodes to.
pub open spec fn encoded(f: Frame) -> Seq<u8>
    decreases f, 0int,
{
    match f {
        Frame::SimpleString(s) => seq![SIMPLE_SIGIL] + s + crlf(),
        Frame::Error(s) => seq![ERROR_SIGIL] + s + crlf(),
        Frame::Integer(i) => seq![INTEGER_SIGIL] + decimal(i as int) + crlf(),
        Frame::BulkString(None) => seq![BULK_SIGIL] + decimal(-1) + crlf(),
        Frame::BulkString(Some(s)) => seq![BULK_SIGIL] + decimal(s.len() as int) + crlf() + s + crlf(),
        Frame::Array(None) => seq![ARRAY_SIGIL] + decimal(-1) + crlf(),
        Frame::Array(Some(items)) => seq![ARRAY_SIGIL] + decimal(items.len() as int) + crlf()
            + encoded_from(items, 0),
    }
}

/// The encodings of `items[i..]`, one after the other.
pub open spec fn encoded_from(items: Seq<Frame>, i: int) -> Seq<u8>
    decreases items, items.len() - i,
{
    if 0 <= i < items.len() {
        encoded(items[i]) + encoded_from(items, i + 1)
    } else {
        Seq::empty()
    }
}

/// The length of a value's encoding, counted field by field: sigil, length or
/// integer text, terminators and payload.
pub open spec fn wire_length(f: Frame) -> nat
    decreases f, 0int,
{
    match f {
        Frame::SimpleString(s) => 1 + s.len() + 2,
        Frame::Error(s) => 1 + s.len() + 2,
        Frame::Integer(i) => 1 + decimal(i as int).len() + 2,
        Frame::BulkString(None) => 1 + 2 + 2,
        Frame::BulkString(Some(s)) => 1 + digits_of(s.len()).len() + 2 + s.len() + 2,
        Frame::Array(None) => 1 + 2 + 2,
        Frame::Array(Some(items)) => 1 + digits_of(items.len()).len() + 2 + wire_length_from(
            items,
            0,
        ),
    }
}

/// The sum of `wire_length` over `items[i..]`.
pub open spec fn wire_length_from(items: Seq<Frame>, i: int) -> nat
    decreases items, items.len() - i,
{
    if 0 <= i < items.len() {
        wire_length(items[i]) + wire_length_from(items, i + 1)
    } else {
        0
    }
}

/// The encodings of a sequence of values, one per value.
pub open spec fn encodings(items: Seq<Frame>) -> Seq<Seq<u8>> {
    Seq::new(items.len(), |i: int| encoded(items[i]))
}

/// The encoding of an array's elements, one after the other.
pub open spec fn encoded_items(items: Seq<Frame>) -> Seq<u8> {
    encodings(items).flatten()
}

pub open spec fn has_crlf(s: Seq<u8>) -> bool {
    exists|k: int| 0 <= k && k + 1 < s.len() && #[trigger] s[k] == CR && s[k + 1] == LF
}

/// A value that can stand on the wire: simple strings and errors hold no
/// terminator, and every length fits the signed 64-bit length field.
pub open spec fn well_formed(f: Frame) -> bool
    decreases f,
{
    match f {
        Frame::SimpleString(s) => !has_crlf(s),
        Frame::Error(s) => !has_crlf(s),
        Frame::Integer(_) => true,
        Frame::BulkString(None) => true,
        Frame::BulkString(Some(s)) => s.len() <= i64::MAX,
        Frame::Array(None) => true,
        Frame::Array(Some(items)) => items.len() <= i64::MAX && forall|i: int|
            0 <= i < items.len() ==> well_formed(#[trigger] items[i]),
    }
}

pub open spec fn is_digit(b: u8) -> bool {
    ZERO <= b <= NINE
}

/// The end of the run of digits that starts at `i`.
pub open spec fn digits_end(s: Seq<u8>, i: int) -> int
    decreases s.len() - i,
{
    if 0 <= i < s.len() && is_digit(s[i]) {
        digits_end(s, i + 1)
    } else {
        i
    }
}

/// The number that a run of decimal digits denotes.
pub open spec fn digits_value(d: Seq<u8>) -> nat
    decreases d.len(),
{
    if d.len() == 0 {
        0
    } else {
        digits_value(d.drop_last()) * 10 + (d.last() - ZERO) as nat
    }
}

pub open spec fn in_i64(n: int) -> bool {
    i64::MIN <= n <= i64::MAX
}

/// The terminator at `i`: present, cut off by the end of the input, or wrong.
pub open spec fn terminator(s: Seq<u8>, i: int) -> Tail {
    if 0 <= i && i + 2 <= s.len() && s[i] == CR && s[i + 1] == LF {
        Tail::Found
    } else if i >= s.len() || (i + 1 == s.len() && s[i] == CR) {
        Tail::Incomplete
    } else {
        Tail::Invalid
    }
}

/// An optional `-`, one or more digits and a terminator, starting at `i`.
/// Digits that run to the end of the input may go on: that is incomplete.
pub open spec fn number_field(s: Seq<u8>, i: int) -> Field {
    if i < 0 || i >= s.len() {
        Field::Incomplete
    } else {
        let q = if s[i] == MINUS { i + 1 } else { i };
        let e = digits_end(s, q);
        if e >= s.len() {
            Field::Incomplete
        } else if e == q {
            Field::Invalid
        } else {
            let mag = digits_value(s.subrange(q, e)) as int;
            let n = if s[i] == MINUS { -mag } else { mag };
            if !in_i64(n) {
                Field::Invalid
            } else {
                match terminator(s, e) {
                    Tail::Found => Field::Num(n, e + 2),
                    Tail::Incomplete => Field::Incomplete,
                    Tail::Invalid => Field::Invalid,
                }
            }
        }
    }
}

/// The first terminator at or after `i`.
pub open spec fn first_crlf(s: Seq<u8>, i: int) -> Option<int>
    decreases s.len() - i,
{
    if i < 0 || i + 1 >= s.len() {
        None
    } else if s[i] == CR && s[i + 1] == LF {
        Some(i)
    } else {
        first_crlf(s, i + 1)
    }
}

pub open spec fn is_sigil(b: u8) -> bool {
    b == SIMPLE_SIGIL || b == ERROR_SIGIL || b == INTEGER_SIGIL || b == BULK_SIGIL
        || b == ARRAY_SIGIL
}

/// Decoding one value that starts at position `p` of the available input `s`.
pub open spec fn parse(s: Seq<u8>, p: int) -> Parsed
    decreases s.len() - p, 0nat,
{
    if p < 0 || p >= s.len() {
        Parsed::Incomplete
    } else if s[p] == SIMPLE_SIGIL || s[p] == ERROR_SIGIL {
        match first_crlf(s, p + 1) {
            None => Parsed::Incomplete,
            Some(j) => {
                let body = s.subrange(p + 1, j);
                Parsed::Done(
                    if s[p] == SIMPLE_SIGIL {
                        Frame::SimpleString(body)
                    } else {
                        Frame::Error(body)
                    },
                    j + 2,
                )
            },
        }
    } else if s[p] == INTEGER_SIGIL {
        match number_field(s, p + 1) {
            Field::Num(n, e) => Parsed::Done(Frame::Integer(n as i64), e),
            Field::Incomplete => Parsed::Incomplete,
            Field::Invalid => Parsed::Invalid,
        }
    } else if s[p] == BULK_SIGIL {
        match number_field(s, p + 1) {
            Field::Num(n, e) => if n < 0 {
                Parsed::Done(Frame::BulkString(None), e)
            } else {
                match terminator(s, e + n) {
                    Tail::Found => Parsed::Done(
                        Frame::BulkString(Some(s.subrange(e, e + n))),
                        e + n + 2,
                    ),
                    Tail::Incomplete => Parsed::Incomplete,
                    Tail::Invalid => Parsed::Invalid,
                }
            },
            Field::Incomplete => Parsed::Incomplete,
            Field::Invalid => Parsed::Invalid,
        }
    } else if s[p] == ARRAY_SIGIL {
        match number_field(s, p + 1) {
            Field::Num(n, e) => if n < 0 {
                Parsed::Done(Frame::Array(None), e)
            } else if p < e <= s.len() {
                match parse_items(s, e, n as nat) {
                    ParsedItems::Done(fs, end) => Parsed::Done(Frame::Array(Some(fs)), end),
                    ParsedItems::Incomplete => Parsed::Incomplete,
                    ParsedItems::Invalid => Parsed::Invalid,
                }
            } else {
                Parsed::Invalid
            },
            Field::Incomplete => Parsed::Incomplete,
            Field::Invalid => Parsed::Invalid,
        }
    } else {
        Parsed::Invalid
    }
}

/// Decoding `k` values one after the other, from position `p`; the first
/// failure, or lack of input, ends the run.
pub open spec fn parse_items(s: Seq<u8>, p: int, k: nat) -> ParsedItems
    decreases s.len() - p, k + 1,
{
    if k == 0 {
        ParsedItems::Done(Seq::empty(), p)
    } else {
        match parse(s, p) {
            Parsed::Done(f, q) => if p < q <= s.len() {
                match parse_items(s, q, (k - 1) as nat) {
                    ParsedItems::Done(fs, end) => ParsedItems::Done(seq![f] + fs, end),
                    ParsedItems::Incomplete => ParsedItems::Incomplete,
                    ParsedItems::Invalid => ParsedItems::Invalid,
                }
            } else {
                ParsedItems::Invalid
            },
            Parsed::Incomplete => ParsedItems::Incomplete,
            Parsed::Invalid => ParsedItems::Invalid,
        }
    }
}

} // verus!

verus! {

proof fn lemma_encoded_from(items: Seq<Frame>, i: int)
    requires
        0 <= i <= items.len(),
    ensures
        encoded_from(items, i) == encodings(items).skip(i).flatten(),
    decreases items.len() - i,
{
    if i < items.len() {
        lemma_encoded_from(items, i + 1);
        assert(encodings(items).skip(i).drop_first() =~= encodings(items).skip(i + 1));
    } else {
        assert(encodings(items).skip(i) =~= Seq::<Seq<u8>>::empty());
    }
}

/// An array's encoding is its header followed by its elements' encodings.
pub proof fn lemma_encoded_array(items: Seq<Frame>)
    ensures
        encoded(Frame::Array(Some(items))) == seq![ARRAY_SIGIL] + decimal(items.len() as int) + crlf()
            + encoded_items(items),
{
    lemma_encoded_from(items, 0);
    assert(encodings(items).skip(0) =~= encodings(items));
}

/// Encoding one more element appends its encoding.
pub proof fn lemma_encoded_items_take(items: Seq<Frame>, i: int)
    requires
        0 <= i < items.len(),
    ensures
        encoded_items(items.take(i + 1)) == encoded_items(items.take(i)) + encoded(items[i]),
{
    assert(encodings(items.take(i + 1)) =~= encodings(items.take(i)).push(encoded(items[i])));
    encodings(items.take(i)).lemma_flatten_push(encoded(items[i]));
}

/// The encoding of the first `k` elements is a prefix of the encoding of all.
pub proof fn lemma_encoded_items_prefix(items: Seq<Frame>, k: int)
    requires
        0 <= k <= items.len(),
    ensures
        encoded_items(items) == encoded_items(items.take(k)) + encoded_items(items.skip(k)),
{
    let e = encodings(items);
    assert(e =~= encodings(items.take(k)) + encodings(items.skip(k)));
    lemma_flatten_concat(encodings(items.take(k)), encodings(items.skip(k)));
}

pub proof fn lemma_encoded_items_prefix_len(items: Seq<Frame>, k: int)
    requires
        0 <= k <= items.len(),
    ensures
        encoded_items(items.take(k)).len() <= encoded_items(items).len(),
{
    lemma_encoded_items_prefix(items, k);
}

} // verus!
