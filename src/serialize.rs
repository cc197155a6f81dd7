//! Encoding values into a `BytesMut` buffer.
use vstd::prelude::*;

use crate::value::Value;
use crate::wire::{
    ARRAY_SIGIL, BULK_SIGIL, CR, ERROR_SIGIL, Frame, INTEGER_SIGIL, LF, MINUS, SIMPLE_SIGIL, ZERO,
    crlf, decimal, digits_of, encoded, encoded_items, lemma_encoded_items_prefix_len,
    lemma_encoded_items_take,
};
use bytes::{BufMut, BytesMut};

verus! {

broadcast use vstd::std_specs::vec::group_vec_axioms;

#[verifier::external_type_specification]
#[verifier::external_body]
pub struct ExBytesMut(BytesMut);

/// The bytes that a buffer holds.
pub uninterp spec fn buffer_bytes(b: BytesMut) -> Seq<u8>;

/// Relies on `BytesMut::new`: the new buffer is empty.
#[verifier::external_body]
pub(crate) fn buffer_new() -> (r: BytesMut)
    ensures
        buffer_bytes(r) == Seq::<u8>::empty(),
{
    BytesMut::new()
}

/// Relies on `BytesMut::len`: the number of bytes held.
#[verifier::external_body]
pub(crate) fn buffer_len(b: &BytesMut) -> (r: usize)
    ensures
        r == buffer_bytes(*b).len(),
{
    b.len()
}

/// Relies on `BytesMut::reserve`: it changes the capacity, never the bytes held.
#[verifier::external_body]
pub(crate) fn buffer_reserve(b: &mut BytesMut, additional: usize)
    requires
        buffer_bytes(*old(b)).len() + additional <= isize::MAX,
    ensures
        buffer_bytes(*final(b)) == buffer_bytes(*old(b)),
{
    b.reserve(additional)
}

/// Relies on `BufMut::put_u8` for `BytesMut`: it appends one byte.
#[verifier::external_body]
pub(crate) fn buffer_put_u8(b: &mut BytesMut, x: u8)
    requires
        buffer_bytes(*old(b)).len() + 1 <= isize::MAX,
    ensures
        buffer_bytes(*final(b)) == buffer_bytes(*old(b)).push(x),
{
    b.put_u8(x)
}

/// Relies on `BufMut::put_slice` for `BytesMut`: it appends the slice.
#[verifier::external_body]
pub(crate) fn buffer_put_slice(b: &mut BytesMut, s: &[u8])
    requires
        buffer_bytes(*old(b)).len() + s@.len() <= isize::MAX,
    ensures
        buffer_bytes(*final(b)) == buffer_bytes(*old(b)) + s@,
{
    b.put_slice(s)
}

/// Relies on `BytesMut`'s `Deref` to `[u8]`: the copy holds the buffer's bytes.
#[verifier::external_body]
pub(crate) fn buffer_to_vec(b: &BytesMut) -> (r: Vec<u8>)
    ensures
        r@ == buffer_bytes(*b),
{
    b.to_vec()
}

pub open spec fn pow10(k: nat) -> nat
    decreases k,
{
    if k == 0 {
        1
    } else {
        10 * pow10((k - 1) as nat)
    }
}

proof fn lemma_digits_len_bound(n: nat, k: nat)
    requires
        n < pow10(k),
        1 <= k,
    ensures
        digits_of(n).len() <= k,
    decreases k,
{
    if n >= 10 {
        if k == 1 {
            assert(pow10(1) == 10 * pow10(0));
        } else {
            let p = pow10((k - 1) as nat);
            assert(n / 10 < p) by (nonlinear_arith)
                requires
                    n < 10 * p,
            ;
            lemma_digits_len_bound(n / 10, (k - 1) as nat);
        }
    }
}

/// The number of decimal digits of `n`.
pub(crate) fn digits_len(n: u64) -> (r: usize)
    ensures
        r == digits_of(n as nat).len(),
        1 <= r <= 20,
    decreases n,
{
    proof {
        reveal_with_fuel(pow10, 21);
        lemma_digits_len_bound(n as nat, 20);
    }
    if n < 10 {
        1
    } else {
        digits_len(n / 10) + 1
    }
}

/// Appends the decimal digits of `n`.
fn put_digits(buf: &mut BytesMut, n: u64)
    requires
        buffer_bytes(*old(buf)).len() + digits_of(n as nat).len() <= isize::MAX,
    ensures
        buffer_bytes(*final(buf)) == buffer_bytes(*old(buf)) + digits_of(n as nat),
    decreases n,
{
    if n >= 10 {
        put_digits(buf, n / 10);
    }
    buffer_put_u8(buf, (n % 10) as u8 + ZERO);
    assert(buffer_bytes(*buf) =~= buffer_bytes(*old(buf)) + digits_of(n as nat));
}

/// Appends the decimal text of `i`.
fn put_decimal(buf: &mut BytesMut, i: i64)
    requires
        buffer_bytes(*old(buf)).len() + decimal(i as int).len() <= isize::MAX,
    ensures
        buffer_bytes(*final(buf)) == buffer_bytes(*old(buf)) + decimal(i as int),
{
    if i < 0 {
        buffer_put_u8(buf, MINUS);
        let mag: u64 = ((-(i + 1)) as u64) + 1;
        put_digits(buf, mag);
        assert(buffer_bytes(*buf) =~= buffer_bytes(*old(buf)) + decimal(i as int));
    } else {
        put_digits(buf, i as u64);
    }
}

/// Appends the two-byte terminator.
fn put_crlf(buf: &mut BytesMut)
    requires
        buffer_bytes(*old(buf)).len() + 2 <= isize::MAX,
    ensures
        buffer_bytes(*final(buf)) == buffer_bytes(*old(buf)) + crlf(),
{
    buffer_put_u8(buf, CR);
    buffer_put_u8(buf, LF);
    assert(buffer_bytes(*buf) =~= buffer_bytes(*old(buf)) + crlf());
}

/// Appends the encoding of `value` to `buf`; returns how many bytes it wrote.
pub fn encode(value: &Value, buf: &mut BytesMut) -> (r: usize)
    requires
        buffer_bytes(*old(buf)).len() + encoded(value@).len() <= isize::MAX,
    ensures
        buffer_bytes(*final(buf)) == buffer_bytes(*old(buf)) + encoded(value@),
        r == encoded(value@).len(),
    decreases value,
{
    let ghost start = buffer_bytes(*buf);
    let initial = buffer_len(buf);
    let value_len = value.serialize_len();
    buffer_reserve(buf, value_len);
    proof {
        crate::value::lemma_encoded_model(*value);
    }
    match value {
        Value::SimpleString(val) => {
            buffer_put_u8(buf, SIMPLE_SIGIL);
            buffer_put_slice(buf, val.as_slice());
            put_crlf(buf);
            assert(buffer_bytes(*buf) =~= start + encoded(value@));
        },
        Value::Error(val) => {
            buffer_put_u8(buf, ERROR_SIGIL);
            buffer_put_slice(buf, val.as_slice());
            put_crlf(buf);
            assert(buffer_bytes(*buf) =~= start + encoded(value@));
        },
        Value::Integer(val) => {
            buffer_put_u8(buf, INTEGER_SIGIL);
            put_decimal(buf, *val);
            put_crlf(buf);
            assert(buffer_bytes(*buf) =~= start + encoded(value@));
        },
        Value::BulkString(val) => {
            buffer_put_u8(buf, BULK_SIGIL);
            match val {
                None => {
                    put_decimal(buf, -1);
                    put_crlf(buf);
                },
                Some(val) => {
                    put_digits(buf, val.len() as u64);
                    put_crlf(buf);
                    buffer_put_slice(buf, val.as_slice());
                    put_crlf(buf);
                },
            }
            assert(buffer_bytes(*buf) =~= start + encoded(value@));
        },
        Value::Array(val) => {
            buffer_put_u8(buf, ARRAY_SIGIL);
            match val {
                None => {
                    put_decimal(buf, -1);
                    put_crlf(buf);
                    assert(buffer_bytes(*buf) =~= start + encoded(value@));
                },
                Some(val) => {
                    let ghost items = value@->Array_0->Some_0;
                    put_digits(buf, val.len() as u64);
                    put_crlf(buf);
                    let ghost header = buffer_bytes(*buf);
                    assert(header =~= start + (seq![ARRAY_SIGIL] + decimal(val.len() as int) + crlf()));
                    assert(items.take(0) =~= Seq::<Frame>::empty());
                    assert(encoded_items(Seq::<Frame>::empty()) =~= Seq::<u8>::empty());
                    assert(buffer_bytes(*buf) =~= header + encoded_items(items.take(0)));
                    let mut i: usize = 0;
                    while i < val.len()
                        invariant
                            0 <= i <= val.len(),
                            *value is Array,
                            (*value)->Array_0 == Some(*val),
                            items.len() == val.len(),
                            forall|j: int| 0 <= j < val.len() ==> #[trigger] items[j] == val[j]@,
                            encoded(value@) == seq![ARRAY_SIGIL] + decimal(val.len() as int) + crlf()
                                + encoded_items(items),
                            header == start + (seq![ARRAY_SIGIL] + decimal(val.len() as int) + crlf()),
                            start.len() + encoded(value@).len() <= isize::MAX,
                            buffer_bytes(*buf) == header + encoded_items(items.take(i as int)),
                        decreases val.len() - i,
                    {
                        proof {
                            lemma_encoded_items_take(items, i as int);
                            lemma_encoded_items_prefix_len(items, i as int + 1);
                        }
                        proof {
                            assert(decreases_to!(*value => (*value)->Array_0));
                        assert(decreases_to!((*value)->Array_0 => (*value)->Array_0->Some_0));
                        assert(decreases_to!(val => val@));
                        assert(decreases_to!(val@ => val@[i as int]));
                        }
                        encode(&val[i], buf);
                        i = i + 1;
                    }
                    proof {
                        assert(items.take(i as int) =~= items);
                    }
                    assert(buffer_bytes(*buf) =~= start + encoded(value@));
                },
            }
        },
    }
    buffer_len(buf) - initial
}

} // verus!
