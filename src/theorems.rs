//! What holds between encoding and decoding, proved over the wire model.
use vstd::prelude::*;

use crate::value::Value;
use crate::wire::{
    Field, Frame, Parsed, ParsedItems, Tail, crlf, decimal, digits_end, digits_of, digits_value,
    encoded, encoded_from, first_crlf, has_crlf, in_i64, is_digit, is_sigil, number_field, parse,
    parse_items, terminator, well_formed, wire_length, wire_length_from,
};

verus! {

proof fn lemma_digits_of(m: nat)
    ensures
        digits_of(m).len() >= 1,
        forall|k: int| 0 <= k < digits_of(m).len() ==> is_digit(#[trigger] digits_of(m)[k]),
        digits_value(digits_of(m)) == m,
    decreases m,
{
    let d = digits_of(m);
    if m >= 10 {
        lemma_digits_of(m / 10);
        let h = digits_of(m / 10);
        assert(d == h.push((m % 10 + 48) as u8));
        assert(d.drop_last() =~= h);
        assert(digits_value(d) == digits_value(h) * 10 + (d.last() - 48) as nat);
    } else {
        assert(d.drop_last() =~= Seq::<u8>::empty());
        assert(digits_value(d.drop_last()) == 0);
    }
}

proof fn lemma_digits_end_run(s: Seq<u8>, q: int, e: int)
    requires
        0 <= q <= e < s.len(),
        forall|k: int| q <= k < e ==> is_digit(#[trigger] s[k]),
        !is_digit(s[e]),
    ensures
        digits_end(s, q) == e,
    decreases e - q,
{
    if q < e {
        lemma_digits_end_run(s, q + 1, e);
    }
}

/// `s` holds `x` from position `p` on.
pub open spec fn holds_at(s: Seq<u8>, p: int, x: Seq<u8>) -> bool {
    0 <= p && p + x.len() <= s.len() && s.subrange(p, p + x.len()) == x
}

proof fn lemma_holds_at_index(s: Seq<u8>, p: int, x: Seq<u8>)
    requires
        holds_at(s, p, x),
    ensures
        forall|k: int| 0 <= k < x.len() ==> #[trigger] s[p + k] == x[k],
{
    assert forall|k: int| 0 <= k < x.len() implies #[trigger] s[p + k] == x[k] by {
        assert(s.subrange(p, p + x.len())[k] == s[p + k]);
    }
}

proof fn lemma_holds_at_part(s: Seq<u8>, p: int, x: Seq<u8>, a: int, b: int)
    requires
        holds_at(s, p, x),
        0 <= a <= b <= x.len(),
    ensures
        holds_at(s, p + a, x.subrange(a, b)),
{
    lemma_holds_at_index(s, p, x);
    assert(s.subrange(p + a, p + b) =~= x.subrange(a, b));
}

proof fn lemma_number_field(s: Seq<u8>, i: int, n: int)
    requires
        in_i64(n),
        holds_at(s, i, decimal(n) + crlf()),
    ensures
        number_field(s, i) == Field::Num(n, i + decimal(n).len() + 2),
{
    let m: nat = if n < 0 {
        (-n) as nat
    } else {
        n as nat
    };
    let d = digits_of(m);
    let t = decimal(n) + crlf();
    lemma_digits_of(m);
    lemma_holds_at_index(s, i, t);
    let off: int = if n < 0 {
        1
    } else {
        0
    };
    assert(decimal(n) =~= if n < 0 {
        seq![45u8] + d
    } else {
        d
    });
    assert(decimal(n).len() == off + d.len());
    let q = i + off;
    let e = q + d.len();
    assert forall|k: int| q <= k < e implies is_digit(#[trigger] s[k]) by {
        assert(s[i + (k - i)] == t[k - i]);
        assert(t[k - i] == d[k - q]);
    }
    assert(s[i + (e - i)] == t[e - i]);
    assert(s[i + (e + 1 - i)] == t[e + 1 - i]);
    assert(s[e] == 13);
    assert(s[e + 1] == 10);
    lemma_digits_end_run(s, q, e);
    assert(s[i + 0] == t[0]);
    if n < 0 {
        assert(s[i] == 45);
    } else {
        assert(is_digit(d[0]));
        assert(s[i] != 45);
    }
    assert(s.subrange(q, e) =~= d) by {
        assert forall|k: int| 0 <= k < d.len() implies s.subrange(q, e)[k] == d[k] by {
            assert(s[i + (q + k - i)] == t[q + k - i]);
        }
    }
    assert(terminator(s, e) == Tail::Found);
}

proof fn lemma_first_crlf_after(s: Seq<u8>, j: int, end: int)
    requires
        0 <= j <= end,
        end + 1 < s.len(),
        s[end] == 13,
        s[end + 1] == 10,
        forall|k: int| j <= k < end ==> !(#[trigger] s[k] == 13 && s[k + 1] == 10),
    ensures
        first_crlf(s, j) == Some(end),
    decreases end - j,
{
    if j < end {
        lemma_first_crlf_after(s, j + 1, end);
    }
}

proof fn lemma_encoded_nonempty(f: Frame)
    ensures
        encoded(f).len() >= 3,
{
    match f {
        Frame::Integer(i) => {
            lemma_digits_of(if i < 0 {
                (-i) as nat
            } else {
                i as nat
            });
        },
        Frame::BulkString(Some(b)) => {
            lemma_digits_of(b.len());
        },
        Frame::Array(Some(items)) => {
            lemma_digits_of(items.len());
        },
        _ => {
            lemma_digits_of(1);
        },
    }
}

proof fn lemma_parse_encoded(f: Frame, s: Seq<u8>, p: int)
    requires
        well_formed(f),
        holds_at(s, p, encoded(f)),
    ensures
        parse(s, p) == Parsed::Done(f, p + encoded(f).len()),
    decreases f, 0int,
{
    let e = encoded(f);
    lemma_holds_at_index(s, p, e);
    lemma_encoded_nonempty(f);
    assert(s[p + 0] == e[0]);
    match f {
        Frame::SimpleString(b) => {
            lemma_simple_body(s, p, b, e);
            assert(s.subrange(p + 1, p + 1 + b.len()) =~= b) by {
                lemma_holds_at_part(s, p, e, 1, 1 + b.len() as int);
                assert(e.subrange(1, 1 + b.len() as int) =~= b);
            }
        },
        Frame::Error(b) => {
            lemma_simple_body(s, p, b, e);
            assert(s.subrange(p + 1, p + 1 + b.len()) =~= b) by {
                lemma_holds_at_part(s, p, e, 1, 1 + b.len() as int);
                assert(e.subrange(1, 1 + b.len() as int) =~= b);
            }
        },
        Frame::Integer(i) => {
            let t = decimal(i as int) + crlf();
            lemma_holds_at_part(s, p, e, 1, e.len() as int);
            assert(e.subrange(1, e.len() as int) =~= t);
            lemma_number_field(s, p + 1, i as int);
        },
        Frame::BulkString(None) => {
            let t = decimal(-1) + crlf();
            lemma_holds_at_part(s, p, e, 1, e.len() as int);
            assert(e.subrange(1, e.len() as int) =~= t);
            lemma_number_field(s, p + 1, -1);
        },
        Frame::Array(None) => {
            let t = decimal(-1) + crlf();
            lemma_holds_at_part(s, p, e, 1, e.len() as int);
            assert(e.subrange(1, e.len() as int) =~= t);
            lemma_number_field(s, p + 1, -1);
        },
        Frame::BulkString(Some(b)) => {
            let n: int = b.len() as int;
            let t = decimal(n) + crlf();
            let h: int = 1 + t.len() as int;
            lemma_holds_at_part(s, p, e, 1, h);
            assert(e.subrange(1, h) =~= t);
            lemma_number_field(s, p + 1, n);
            let start = p + h;
            assert(s[p + (h + n)] == e[h + n]);
            assert(s[p + (h + n + 1)] == e[h + n + 1]);
            assert(terminator(s, start + n) == Tail::Found);
            lemma_holds_at_part(s, p, e, h, h + n);
            assert(e.subrange(h, h + n) =~= b);
        },
        Frame::Array(Some(items)) => {
            let n: int = items.len() as int;
            let t = decimal(n) + crlf();
            let h: int = 1 + t.len() as int;
            lemma_holds_at_part(s, p, e, 1, h);
            assert(e.subrange(1, h) =~= t);
            lemma_number_field(s, p + 1, n);
            lemma_holds_at_part(s, p, e, h, e.len() as int);
            assert(e.subrange(h, e.len() as int) =~= encoded_from(items, 0));
            lemma_parse_items_encoded(items, 0, s, p + h);
            assert(items.skip(0) =~= items);
        },
    }
}

proof fn lemma_simple_body(s: Seq<u8>, p: int, b: Seq<u8>, e: Seq<u8>)
    requires
        !has_crlf(b),
        e == seq![e[0]] + b + crlf(),
        holds_at(s, p, e),
    ensures
        first_crlf(s, p + 1) == Some(p + 1 + b.len()),
{
    lemma_holds_at_index(s, p, e);
    let end: int = p + 1 + b.len();
    assert(s[p + (end - p)] == e[end - p]);
    assert(s[p + (end + 1 - p)] == e[end + 1 - p]);
    assert forall|k: int| p + 1 <= k < end implies !(#[trigger] s[k] == 13 && s[k + 1] == 10) by {
        assert(s[p + (k - p)] == e[k - p]);
        assert(s[p + (k + 1 - p)] == e[k + 1 - p]);
        assert(e[k - p] == b[k - p - 1]);
        if k + 1 < end {
            assert(e[k + 1 - p] == b[k - p]);
            if s[k] == 13 && s[k + 1] == 10 {
                assert(b[k - p - 1] == 13 && b[k - p - 1 + 1] == 10);
                assert(has_crlf(b));
            }
        }
    }
    lemma_first_crlf_after(s, p + 1, end);
}

proof fn lemma_parse_items_encoded(items: Seq<Frame>, k: int, s: Seq<u8>, q: int)
    requires
        0 <= k <= items.len(),
        forall|i: int| 0 <= i < items.len() ==> well_formed(#[trigger] items[i]),
        holds_at(s, q, encoded_from(items, k)),
    ensures
        parse_items(s, q, (items.len() - k) as nat) == ParsedItems::Done(
            items.skip(k),
            q + encoded_from(items, k).len(),
        ),
    decreases items, items.len() - k,
{
    if k < items.len() {
        let x = encoded(items[k]);
        let all = encoded_from(items, k);
        assert(all == x + encoded_from(items, k + 1));
        lemma_holds_at_part(s, q, all, 0, x.len() as int);
        assert(all.subrange(0, x.len() as int) =~= x);
        lemma_parse_encoded(items[k], s, q);
        lemma_encoded_nonempty(items[k]);
        lemma_holds_at_part(s, q, all, x.len() as int, all.len() as int);
        assert(all.subrange(x.len() as int, all.len() as int) =~= encoded_from(items, k + 1));
        lemma_parse_items_encoded(items, k + 1, s, q + x.len());
        assert(seq![items[k]] + items.skip(k + 1) =~= items.skip(k));
    } else {
        assert(items.skip(k) =~= Seq::<Frame>::empty());
    }
}

/// `s` ends inside `x`, which starts at position `p`: a proper prefix of `x`.
pub open spec fn cut_at(s: Seq<u8>, p: int, x: Seq<u8>) -> bool {
    0 <= p <= s.len() && s.len() < p + x.len() && s.subrange(p, s.len() as int) == x.take(
        s.len() - p,
    )
}

proof fn lemma_cut_at_index(s: Seq<u8>, p: int, x: Seq<u8>)
    requires
        cut_at(s, p, x),
    ensures
        forall|k: int| 0 <= k < s.len() - p ==> #[trigger] s[p + k] == x[k],
{
    assert forall|k: int| 0 <= k < s.len() - p implies #[trigger] s[p + k] == x[k] by {
        assert(s.subrange(p, s.len() as int)[k] == s[p + k]);
        assert(x.take(s.len() - p)[k] == x[k]);
    }
}

proof fn lemma_cut_at_part(s: Seq<u8>, p: int, x: Seq<u8>, a: int)
    requires
        cut_at(s, p, x),
        0 <= a <= s.len() - p,
    ensures
        cut_at(s, p + a, x.subrange(a, x.len() as int)),
{
    let m = s.len() - p;
    let y = x.take(m);
    lemma_holds_at_part(s, p, y, a, m);
    assert(y.subrange(a, m) =~= x.subrange(a, x.len() as int).take(m - a));
}

proof fn lemma_cut_then_holds(s: Seq<u8>, p: int, x: Seq<u8>, a: int, b: int)
    requires
        cut_at(s, p, x),
        0 <= a <= b <= s.len() - p,
    ensures
        holds_at(s, p + a, x.subrange(a, b)),
{
    let m = s.len() - p;
    let y = x.take(m);
    lemma_holds_at_part(s, p, y, a, b);
    assert(y.subrange(a, b) =~= x.subrange(a, b));
}

proof fn lemma_first_crlf_none(s: Seq<u8>, j: int)
    requires
        0 <= j,
        forall|k: int| j <= k && k + 1 < s.len() ==> !(#[trigger] s[k] == 13 && s[k + 1] == 10),
    ensures
        first_crlf(s, j) is None,
    decreases s.len() - j,
{
    if j + 1 < s.len() {
        lemma_first_crlf_none(s, j + 1);
    }
}

proof fn lemma_digits_end_to_end(s: Seq<u8>, q: int)
    requires
        0 <= q <= s.len(),
        forall|k: int| q <= k < s.len() ==> is_digit(#[trigger] s[k]),
    ensures
        digits_end(s, q) == s.len(),
    decreases s.len() - q,
{
    if q < s.len() {
        lemma_digits_end_to_end(s, q + 1);
    }
}

/// A decimal field cut off before its terminator ends is incomplete.
proof fn lemma_number_field_cut(s: Seq<u8>, i: int, n: int)
    requires
        in_i64(n),
        cut_at(s, i, decimal(n) + crlf()),
    ensures
        number_field(s, i) == Field::Incomplete,
{
    if i < s.len() {
        let m: nat = if n < 0 {
            (-n) as nat
        } else {
            n as nat
        };
        let d = digits_of(m);
        let t = decimal(n) + crlf();
        lemma_digits_of(m);
        lemma_cut_at_index(s, i, t);
        let off: int = if n < 0 {
            1
        } else {
            0
        };
        assert(decimal(n) =~= if n < 0 {
            seq![45u8] + d
        } else {
            d
        });
        let q = i + off;
        let e = q + d.len();
        assert(s[i + 0] == t[0]);
        if n >= 0 {
            assert(is_digit(d[0]));
        }
        assert forall|k: int| q <= k < e && k < s.len() implies is_digit(#[trigger] s[k]) by {
            assert(s[i + (k - i)] == t[k - i]);
            assert(t[k - i] == d[k - q]);
        }
        if s.len() <= e {
            lemma_digits_end_to_end(s, q);
        } else {
            assert(s[i + (e - i)] == t[e - i]);
            assert(s[e] == 13);
            lemma_digits_end_run(s, q, e);
            assert(s.subrange(q, e) =~= d) by {
                assert forall|k: int| 0 <= k < d.len() implies s.subrange(q, e)[k] == d[k] by {
                    assert(s[i + (q + k - i)] == t[q + k - i]);
                }
            }
            assert(s.len() == e + 1);
        }
    }
}

proof fn lemma_parse_cut(f: Frame, s: Seq<u8>, p: int)
    requires
        well_formed(f),
        cut_at(s, p, encoded(f)),
    ensures
        parse(s, p) == Parsed::Incomplete,
    decreases f, 0int,
{
    let e = encoded(f);
    lemma_cut_at_index(s, p, e);
    if p < s.len() {
        assert(s[p + 0] == e[0]);
        match f {
            Frame::SimpleString(b) => {
                lemma_simple_cut(s, p, b, e);
            },
            Frame::Error(b) => {
                lemma_simple_cut(s, p, b, e);
            },
            Frame::Integer(i) => {
                lemma_cut_at_part(s, p, e, 1);
                assert(e.subrange(1, e.len() as int) =~= decimal(i as int) + crlf());
                lemma_number_field_cut(s, p + 1, i as int);
            },
            Frame::BulkString(None) => {
                lemma_cut_at_part(s, p, e, 1);
                assert(e.subrange(1, e.len() as int) =~= decimal(-1) + crlf());
                lemma_number_field_cut(s, p + 1, -1);
            },
            Frame::Array(None) => {
                lemma_cut_at_part(s, p, e, 1);
                assert(e.subrange(1, e.len() as int) =~= decimal(-1) + crlf());
                lemma_number_field_cut(s, p + 1, -1);
            },
            Frame::BulkString(Some(b)) => {
                let n: int = b.len() as int;
                let t = decimal(n) + crlf();
                let h: int = 1 + t.len() as int;
                if s.len() < p + h {
                    lemma_cut_at_part(s, p, e, 1);
                    assert(e.subrange(1, e.len() as int).take(s.len() - p - 1) =~= t.take(
                        s.len() - p - 1,
                    ));
                    assert(cut_at(s, p + 1, t));
                    lemma_number_field_cut(s, p + 1, n);
                } else {
                    lemma_cut_then_holds(s, p, e, 1, h);
                    assert(e.subrange(1, h) =~= t);
                    lemma_number_field(s, p + 1, n);
                    if s.len() == p + h + n + 1 {
                        assert(s[p + (h + n)] == e[h + n]);
                    }
                    assert(terminator(s, p + h + n) == Tail::Incomplete);
                }
            },
            Frame::Array(Some(items)) => {
                let n: int = items.len() as int;
                let t = decimal(n) + crlf();
                let h: int = 1 + t.len() as int;
                if s.len() < p + h {
                    lemma_cut_at_part(s, p, e, 1);
                    assert(e.subrange(1, e.len() as int).take(s.len() - p - 1) =~= t.take(
                        s.len() - p - 1,
                    ));
                    assert(cut_at(s, p + 1, t));
                    lemma_number_field_cut(s, p + 1, n);
                } else {
                    lemma_cut_then_holds(s, p, e, 1, h);
                    assert(e.subrange(1, h) =~= t);
                    lemma_number_field(s, p + 1, n);
                    lemma_cut_at_part(s, p, e, h);
                    assert(e.subrange(h, e.len() as int) =~= encoded_from(items, 0));
                    lemma_parse_items_cut(items, 0, s, p + h);
                }
            },
        }
    }
}

proof fn lemma_simple_cut(s: Seq<u8>, p: int, b: Seq<u8>, e: Seq<u8>)
    requires
        !has_crlf(b),
        e == seq![e[0]] + b + crlf(),
        cut_at(s, p, e),
        p < s.len(),
    ensures
        first_crlf(s, p + 1) is None,
{
    lemma_cut_at_index(s, p, e);
    assert forall|k: int| p + 1 <= k && k + 1 < s.len() implies !(#[trigger] s[k] == 13 && s[k
        + 1] == 10) by {
        assert(s[p + (k - p)] == e[k - p]);
        assert(s[p + (k + 1 - p)] == e[k + 1 - p]);
        if k + 1 - p <= b.len() {
            assert(e[k - p] == b[k - p - 1]);
            assert(e[k + 1 - p] == b[k - p]);
            if s[k] == 13 && s[k + 1] == 10 {
                assert(b[k - p - 1] == 13 && b[k - p - 1 + 1] == 10);
                assert(has_crlf(b));
            }
        } else {
            assert(k + 1 - p == b.len() + 1);
            assert(e[k + 1 - p] == 13);
        }
    }
    lemma_first_crlf_none(s, p + 1);
}

proof fn lemma_parse_items_cut(items: Seq<Frame>, k: int, s: Seq<u8>, q: int)
    requires
        0 <= k <= items.len(),
        forall|i: int| 0 <= i < items.len() ==> well_formed(#[trigger] items[i]),
        cut_at(s, q, encoded_from(items, k)),
    ensures
        parse_items(s, q, (items.len() - k) as nat) == ParsedItems::Incomplete,
    decreases items, items.len() - k,
{
    if k < items.len() {
        let x = encoded(items[k]);
        let all = encoded_from(items, k);
        assert(all == x + encoded_from(items, k + 1));
        lemma_encoded_nonempty(items[k]);
        if s.len() < q + x.len() {
            lemma_cut_at_index(s, q, all);
            assert(s.subrange(q, s.len() as int) =~= x.take(s.len() - q));
            lemma_parse_cut(items[k], s, q);
        } else {
            lemma_cut_then_holds(s, q, all, 0, x.len() as int);
            assert(all.subrange(0, x.len() as int) =~= x);
            lemma_parse_encoded(items[k], s, q);
            lemma_cut_at_part(s, q, all, x.len() as int);
            assert(all.subrange(x.len() as int, all.len() as int) =~= encoded_from(items, k + 1));
            lemma_parse_items_cut(items, k + 1, s, q + x.len());
        }
    }
}

/// Every proper prefix of the encoding of a well-formed value asks for more
/// data: it is never reported as malformed.
pub proof fn lemma_truncated_needs_more(v: Value, k: int)
    requires
        well_formed(v@),
        0 <= k < encoded(v@).len(),
    ensures
        parse(encoded(v@).take(k), 0) == Parsed::Incomplete,
{
    let e = encoded(v@);
    let s = e.take(k);
    assert(s.subrange(0, s.len() as int) =~= e.take(s.len() - 0));
    lemma_parse_cut(v@, s, 0);
}

/// Decoding the encoding of a well-formed value gives the value back and
/// consumes the whole encoding, whatever bytes follow it.
pub proof fn lemma_round_trip(v: Value, rest: Seq<u8>)
    requires
        well_formed(v@),
    ensures
        parse(encoded(v@) + rest, 0) == Parsed::Done(v@, encoded(v@).len() as int),
{
    let s = encoded(v@) + rest;
    assert(s.subrange(0, encoded(v@).len() as int) =~= encoded(v@));
    lemma_parse_encoded(v@, s, 0);
}

proof fn lemma_first_crlf_found(s: Seq<u8>, i: int)
    requires
        first_crlf(s, i) is Some,
    ensures
        ({
            let j = first_crlf(s, i)->Some_0;
            &&& 0 <= i <= j
            &&& j + 1 < s.len()
            &&& forall|k: int| i <= k < j ==> !(#[trigger] s[k] == 13 && s[k + 1] == 10)
        }),
    decreases s.len() - i,
{
    if !(s[i] == 13 && s[i + 1] == 10) {
        lemma_first_crlf_found(s, i + 1);
    }
}

proof fn lemma_number_field_facts(s: Seq<u8>, i: int)
    requires
        number_field(s, i) is Num,
    ensures
        in_i64(number_field(s, i)->Num_0),
        i < number_field(s, i)->Num_1 <= s.len(),
{
    let q = if s[i] == 45 {
        i + 1
    } else {
        i
    };
    lemma_digits_end_ge(s, q);
}

proof fn lemma_digits_end_ge(s: Seq<u8>, q: int)
    ensures
        digits_end(s, q) >= q,
    decreases s.len() - q,
{
    if 0 <= q < s.len() && is_digit(s[q]) {
        lemma_digits_end_ge(s, q + 1);
    }
}

proof fn lemma_parsed_well_formed(s: Seq<u8>, p: int)
    requires
        parse(s, p) is Done,
    ensures
        well_formed(parse(s, p)->Done_0),
    decreases s.len() - p, 0nat,
{
    if s[p] == 43 || s[p] == 45 {
        let j = first_crlf(s, p + 1)->Some_0;
        lemma_first_crlf_found(s, p + 1);
        let body = s.subrange(p + 1, j);
        if has_crlf(body) {
            let k = choose|k: int|
                0 <= k && k + 1 < body.len() && #[trigger] body[k] == 13 && body[k + 1] == 10;
            assert(s[p + 1 + k] == 13 && s[p + 1 + k + 1] == 10);
        }
    } else if s[p] == 42 {
        let n = number_field(s, p + 1)->Num_0;
        let e = number_field(s, p + 1)->Num_1;
        lemma_number_field_facts(s, p + 1);
        if n >= 0 {
            lemma_parsed_items_well_formed(s, e, n as nat);
        }
    } else if s[p] == 36 {
        lemma_number_field_facts(s, p + 1);
    }
}

proof fn lemma_parsed_items_well_formed(s: Seq<u8>, p: int, k: nat)
    requires
        parse_items(s, p, k) is Done,
    ensures
        parse_items(s, p, k)->Done_0.len() == k,
        forall|i: int|
            0 <= i < k ==> well_formed(#[trigger] parse_items(s, p, k)->Done_0[i]),
    decreases s.len() - p, k + 1,
{
    if k > 0 {
        let q = parse(s, p)->Done_1;
        let f = parse(s, p)->Done_0;
        lemma_parsed_well_formed(s, p);
        lemma_parsed_items_well_formed(s, q, (k - 1) as nat);
        let fs = parse_items(s, q, (k - 1) as nat)->Done_0;
        assert forall|i: int| 0 <= i < k implies well_formed(
            #[trigger] parse_items(s, p, k)->Done_0[i],
        ) by {
            if i > 0 {
                assert(parse_items(s, p, k)->Done_0[i] == fs[i - 1]);
            }
        }
    }
}

/// Encoding a decoded value and decoding the result gives the same value,
/// read from the whole of its new encoding.
pub proof fn lemma_reencode_decoded(s: Seq<u8>)
    requires
        parse(s, 0) is Done,
    ensures
        ({
            let f = parse(s, 0)->Done_0;
            parse(encoded(f), 0) == Parsed::Done(f, encoded(f).len() as int)
        }),
{
    let f = parse(s, 0)->Done_0;
    lemma_parsed_well_formed(s, 0);
    let e = encoded(f);
    assert(e.subrange(0, e.len() as int) =~= e);
    lemma_parse_encoded(f, e, 0);
}

proof fn lemma_wire_length_from(items: Seq<Frame>, i: int)
    requires
        0 <= i <= items.len(),
    ensures
        wire_length_from(items, i) == encoded_from(items, i).len(),
    decreases items, items.len() - i,
{
    if i < items.len() {
        lemma_wire_length(items[i]);
        lemma_wire_length_from(items, i + 1);
    }
}

proof fn lemma_wire_length(f: Frame)
    ensures
        wire_length(f) == encoded(f).len(),
    decreases f, 0int,
{
    assert(digits_of(1) =~= seq![49u8]);
    if let Frame::Array(Some(items)) = f {
        lemma_wire_length_from(items, 0);
    }
}

/// The length counted field by field is the length of the encoding, so the
/// size that `serialize_len` reports is the number of bytes `encode` writes.
pub proof fn lemma_length_agreement(v: Value)
    ensures
        wire_length(v@) == encoded(v@).len(),
{
    lemma_wire_length(v@);
}

/// Input whose first byte is no sigil is malformed.
pub proof fn lemma_unknown_sigil(s: Seq<u8>)
    requires
        s.len() > 0,
        !is_sigil(s[0]),
    ensures
        parse(s, 0) == Parsed::Invalid,
{
}

/// A null bulk string and an empty one are different values, with different
/// encodings, and each decodes from its own encoding.
pub proof fn lemma_null_distinct()
    ensures
        Frame::BulkString(None) != Frame::BulkString(Some(Seq::<u8>::empty())),
        encoded(Frame::BulkString(None)) == seq![36u8, 45u8, 49u8, 13u8, 10u8],
        encoded(Frame::BulkString(Some(Seq::<u8>::empty()))) == seq![
            36u8,
            48u8,
            13u8,
            10u8,
            13u8,
            10u8,
        ],
        parse(encoded(Frame::BulkString(None)), 0) == Parsed::Done(Frame::BulkString(None), 5),
        parse(encoded(Frame::BulkString(Some(Seq::<u8>::empty()))), 0) == Parsed::Done(
            Frame::BulkString(Some(Seq::<u8>::empty())),
            6,
        ),
{
    let null = Frame::BulkString(None);
    let empty = Frame::BulkString(Some(Seq::<u8>::empty()));
    assert(digits_of(1) =~= seq![49u8]);
    assert(digits_of(0) =~= seq![48u8]);
    assert(encoded(null) =~= seq![36u8, 45u8, 49u8, 13u8, 10u8]);
    assert(encoded(empty) =~= seq![36u8, 48u8, 13u8, 10u8, 13u8, 10u8]);
    let s1 = encoded(null);
    let s2 = encoded(empty);
    assert(s1.subrange(0, s1.len() as int) =~= s1);
    assert(s2.subrange(0, s2.len() as int) =~= s2);
    lemma_parse_encoded(null, s1, 0);
    lemma_parse_encoded(empty, s2, 0);
}

} // verus!
