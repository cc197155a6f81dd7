//! The protocol value and its decoding and encoding entry points.
use vstd::prelude::*;

use crate::parser::parse_resp_value;
use crate::serialize::{buffer_bytes, buffer_new, buffer_to_vec, digits_len, encode};
use crate::theorems::lemma_length_agreement;
use crate::wire::{
    ARRAY_SIGIL, Frame, Parsed, crlf, decimal, encoded, encoded_items, lemma_encoded_array,
    lemma_encoded_items_prefix_len, lemma_encoded_items_take, parse, wire_length,
};
use bytes::BytesMut;

verus! {

broadcast use vstd::std_specs::vec::group_vec_axioms;

/// Why a decode attempt produced no value.
#[derive(Debug, PartialEq, Eq)]
pub enum Error {
    /// The input cannot be the start of a value.
    InvalidData,
    /// The input is a proper prefix of a value: retry with more bytes.
    NeedMoreData,
}

/// A protocol value; byte payloads are owned copies.
#[derive(Debug, PartialEq)]
pub enum Value {
    SimpleString(Vec<u8>),
    Error(Vec<u8>),
    Integer(i64),
    BulkString(Option<Vec<u8>>),
    Array(Option<Vec<Value>>),
}

/// The model of a value.
pub open spec fn model(v: Value) -> Frame
    decreases v,
{
    match v {
        Value::SimpleString(s) => Frame::SimpleString(s@),
        Value::Error(s) => Frame::Error(s@),
        Value::Integer(i) => Frame::Integer(i),
        Value::BulkString(None) => Frame::BulkString(None),
        Value::BulkString(Some(s)) => Frame::BulkString(Some(s@)),
        Value::Array(None) => Frame::Array(None),
        Value::Array(Some(items)) => Frame::Array(
            Some(
                Seq::new(
                    items.len() as nat,
                    |i: int|
                        if 0 <= i < items.len() {
                            model(items[i])
                        } else {
                            Frame::Integer(0)
                        },
                ),
            ),
        ),
    }
}

impl View for Value {
    type V = Frame;

    open spec fn view(&self) -> Frame {
        model(*self)
    }
}

/// The outcome that `parse_resp_value` and `Value::parse` report for an input.
pub open spec fn decode_result(buf: Seq<u8>, r: Result<(&[u8], Value), Error>) -> bool {
    match parse(buf, 0) {
        Parsed::Done(f, end) => r is Ok && r->Ok_0.0@ == buf.subrange(end, buf.len() as int)
            && r->Ok_0.1@ == f,
        Parsed::Incomplete => r == Err::<(&[u8], Value), Error>(Error::NeedMoreData),
        Parsed::Invalid => r == Err::<(&[u8], Value), Error>(Error::InvalidData),
    }
}

impl Value {
    /// Decodes the value at the start of `buf`, returning the unconsumed rest.
    pub fn parse(buf: &[u8]) -> (r: Result<(&[u8], Value), Error>)
        ensures
            decode_result(buf@, r),
    {
        parse_resp_value(buf)
    }

    /// Whether the value is a null bulk string or a null array.
    pub fn is_null(&self) -> (r: bool)
        ensures
            r == (self@ == Frame::BulkString(None) || self@ == Frame::Array(None)),
    {
        match self {
            Value::Array(None) | Value::BulkString(None) => true,
            _ => false,
        }
    }

    /// Whether the value is an error.
    pub fn is_error(&self) -> (r: bool)
        ensures
            r == self@ is Error,
    {
        match self {
            Value::Error(_) => true,
            _ => false,
        }
    }

    /// Appends the encoding of the value to `buf`; returns how many bytes it wrote.
    pub fn encode(&self, buf: &mut BytesMut) -> (r: usize)
        requires
            buffer_bytes(*old(buf)).len() + encoded(self@).len() <= isize::MAX,
        ensures
            buffer_bytes(*final(buf)) == buffer_bytes(*old(buf)) + encoded(self@),
            r == encoded(self@).len(),
    {
        encode(self, buf)
    }

    /// The encoding of the value.
    pub fn to_vec(&self) -> (r: Vec<u8>)
        requires
            encoded(self@).len() <= isize::MAX,
        ensures
            r@ == encoded(self@),
    {
        let mut buf = buffer_new();
        self.encode(&mut buf);
        buffer_to_vec(&buf)
    }

    /// The number of bytes that the encoding of the value takes.
    pub fn serialize_len(&self) -> (r: usize)
        requires
            encoded(self@).len() <= usize::MAX,
        ensures
            r == encoded(self@).len(),
            r == wire_length(self@),
        decreases self,
    {
        proof {
            lemma_encoded_model(*self);
            lemma_length_agreement(*self);
        }
        match self {
            Value::SimpleString(s) => 1 + s.len() + 2,
            Value::Error(e) => 1 + e.len() + 2,
            Value::Integer(i) => 1 + decimal_len(*i) + 2,
            Value::BulkString(None) => 1 + 2 + 2,
            Value::BulkString(Some(s)) => {
                let n = s.len();
                1 + digits_len(n as u64) + 2 + n + 2
            },
            Value::Array(None) => 1 + 2 + 2,
            Value::Array(Some(array)) => {
                let ghost items = self@->Array_0->Some_0;
                let mut total: usize = 1 + digits_len(array.len() as u64) + 2;
                let mut i: usize = 0;
                while i < array.len()
                    invariant
                        0 <= i <= array.len(),
                        *self is Array,
                        (*self)->Array_0 == Some(*array),
                        items.len() == array.len(),
                        forall|j: int| 0 <= j < array.len() ==> #[trigger] items[j] == array[j]@,
                        encoded(self@) == seq![ARRAY_SIGIL] + decimal(array.len() as int) + crlf()
                            + encoded_items(items),
                        encoded(self@).len() <= usize::MAX,
                        total == 3 + decimal(array.len() as int).len() + encoded_items(
                            items.take(i as int),
                        ).len(),
                    decreases array.len() - i,
                {
                    proof {
                        lemma_encoded_items_take(items, i as int);
                        lemma_encoded_items_prefix_len(items, i as int + 1);
                    }
                    proof {
                        assert(decreases_to!(*self => (*self)->Array_0));
                        assert(decreases_to!((*self)->Array_0 => (*self)->Array_0->Some_0));
                        assert(decreases_to!(array => array@));
                        assert(decreases_to!(array@ => array@[i as int]));
                    }
                    let n = array[i].serialize_len();
                    total = total + n;
                    i = i + 1;
                }
                proof {
                    assert(items.take(i as int) =~= items);
                }
                total
            },
        }
    }
}

/// The length of the decimal text of `i`.
fn decimal_len(i: i64) -> (r: usize)
    ensures
        r == decimal(i as int).len(),
{
    if i < 0 {
        let mag: u64 = ((-(i + 1)) as u64) + 1;
        1 + digits_len(mag)
    } else {
        digits_len(i as u64)
    }
}

/// The encoding of an array, written with the encodings of its elements' models.
pub proof fn lemma_encoded_model(v: Value)
    ensures
        v is Array && v->Array_0 is Some ==> {
            let items = v@->Array_0->Some_0;
            &&& v@ is Array && v@->Array_0 is Some
            &&& items.len() == v->Array_0->Some_0.len()
            &&& forall|j: int|
                0 <= j < items.len() ==> #[trigger] items[j] == v->Array_0->Some_0[j]@
            &&& encoded(v@) == seq![ARRAY_SIGIL] + decimal(items.len() as int) + crlf()
                + encoded_items(items)
        },
{
    if let Value::Array(Some(array)) = v {
        let items = v@->Array_0->Some_0;
        lemma_encoded_array(items);
    }
}

} // verus!
