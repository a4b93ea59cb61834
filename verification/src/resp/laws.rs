//! What holds of the encoder and the decoder together: reading what was
//! written gives the value back, and reading less than what was written is
//! never mistaken for a fault.
use super::composite::{
    entries_insert, entries_sorted, key_of, lemma_entries_insert_last,
    lemma_members_insert_last, members_insert, members_sorted, value_of,
};
use super::decimal::{
    digits_of, i64_of, is_digit, lemma_digits_of, lemma_numeral_has_no_cr,
    lemma_signed_of_numeral, lemma_unsigned_of_digits, numeral, u64_of,
};
use super::deserialize::{
    decoded, done, failed, first_cr, is_tag, line_end, parse_bulk, parse_entries, parse_items,
    parse_members, parse_value, shift, RespDeserializeError,
};
use super::double::{is_double_text, lemma_double_text_has_no_cr};
use super::order::key_lt;
use super::serialize::{
    bulk, encode, encode_all, encode_entries, encode_key, encode_members, line, truth_byte, CR,
    LF, TAG_ARRAY, TAG_BOOLEAN, TAG_BULK_ERROR, TAG_BULK_STRING, TAG_DOUBLE, TAG_INTEGER,
    TAG_MAP, TAG_NULL, TAG_SET, TAG_SIMPLE_ERROR, TAG_SIMPLE_STRING,
};
use super::{KeyView, RespView};
use vstd::prelude::*;
use vstd::utf8::{
    encode_utf8, encode_utf8_decode_utf8, encode_utf8_valid_utf8, is_ascii_chars,
    is_ascii_chars_encode_utf8, valid_utf8,
};

verus! {

/// `b` holds no carriage return.
pub open spec fn no_cr(b: Seq<u8>) -> bool {
    forall|i: int| 0 <= i < b.len() ==> #[trigger] b[i] != CR
}

/// The key can go over the wire and come back: see [`wire_safe`].
pub open spec fn key_wire_safe(k: KeyView) -> bool {
    match k {
        KeyView::SimpleString(s) => no_cr(encode_utf8(s)),
        KeyView::SimpleError(s) => no_cr(encode_utf8(s)),
        KeyView::Integer(i) => i64::MIN <= i <= i64::MAX,
        KeyView::BulkString(s, null) => if null {
            s.len() == 0
        } else {
            encode_utf8(s).len() <= i64::MAX
        },
        KeyView::BulkError(s) => encode_utf8(s).len() <= u64::MAX,
        KeyView::Null => true,
        KeyView::Boolean(_) => true,
    }
}

/// The value can go over the wire and come back: a line of text holds no
/// carriage return, an integer fits 64 bits, a double is the text of one, a
/// null bulk string or array holds nothing, lengths and counts fit the
/// numbers that the decoder reads them into, and a map or a set is in key
/// order.
pub open spec fn wire_safe(v: RespView) -> bool
    decreases v,
{
    match v {
        RespView::SimpleString(s) => no_cr(encode_utf8(s)),
        RespView::SimpleError(s) => no_cr(encode_utf8(s)),
        RespView::Integer(i) => i64::MIN <= i <= i64::MAX,
        RespView::BulkString(s, null) => if null {
            s.len() == 0
        } else {
            encode_utf8(s).len() <= i64::MAX
        },
        RespView::Array(items, null) => if null {
            items.len() == 0
        } else {
            items.len() <= i64::MAX && all_wire_safe(items)
        },
        RespView::Null => true,
        RespView::Boolean(_) => true,
        RespView::Double(t) => is_double_text(encode_utf8(t)),
        RespView::BulkError(s) => encode_utf8(s).len() <= u64::MAX,
        RespView::RespMap(m) => m.len() <= u64::MAX && entries_sorted(m) && entries_wire_safe(m),
        RespView::RespSet(s) => s.len() <= u64::MAX && members_sorted(s) && members_wire_safe(
            s,
        ),
    }
}

/// Each of the values can go over the wire and come back.
pub open spec fn all_wire_safe(items: Seq<RespView>) -> bool
    decreases items,
{
    forall|i: int| 0 <= i < items.len() ==> wire_safe(#[trigger] items[i])
}

/// Each key and each value of the entries can go over the wire and come
/// back.
pub open spec fn entries_wire_safe(m: Seq<(KeyView, RespView)>) -> bool
    decreases m,
{
    forall|i: int|
        0 <= i < m.len() ==> key_wire_safe((#[trigger] m[i]).0) && wire_safe(m[i].1)
}

/// Each of the keys can go over the wire and come back.
pub open spec fn members_wire_safe(s: Seq<KeyView>) -> bool {
    forall|i: int| 0 <= i < s.len() ==> key_wire_safe(#[trigger] s[i])
}

/// The value holds no other value.
pub open spec fn is_scalar(v: RespView) -> bool {
    !(v is Array) && !(v is RespMap) && !(v is RespSet)
}

/// The first carriage return at or after `from` stands at `k`.
proof fn lemma_first_cr_found(s: Seq<u8>, from: int, k: int)
    requires
        0 <= from <= k < s.len(),
        s[k] == CR,
        forall|j: int| from <= j < k ==> s[j] != CR,
    ensures
        first_cr(s, from) == k,
    decreases k - from,
{
    if from < k {
        lemma_first_cr_found(s, from + 1, k);
    }
}

/// There is no carriage return at or after `from`.
proof fn lemma_first_cr_none(s: Seq<u8>, from: int)
    requires
        0 <= from <= s.len(),
        forall|j: int| from <= j < s.len() ==> s[j] != CR,
    ensures
        first_cr(s, from) == s.len(),
    decreases s.len() - from,
{
    if from < s.len() {
        lemma_first_cr_none(s, from + 1);
    }
}

/// A line and what follows it fall apart again: the tag, the body up to
/// the line end, and what follows.
pub proof fn lemma_line_start(tag: u8, body: Seq<u8>, rest: Seq<u8>)
    requires
        no_cr(body),
    ensures
        ({
            let s = line(tag, body) + rest;
            &&& s.len() == body.len() + 3 + rest.len()
            &&& s[0] == tag
            &&& line_end(s.skip(1)) == Ok::<int, RespDeserializeError>(body.len() as int)
            &&& s.subrange(1, 1 + body.len() as int) == body
            &&& s.skip(body.len() as int + 3) == rest
        }),
{
    let s = line(tag, body) + rest;
    let t = s.skip(1);
    let n = body.len() as int;
    assert forall|j: int| 0 <= j < n implies t[j] != CR by {
        assert(t[j] == body[j]);
    }
    assert(t[n] == CR);
    assert(t[n + 1] == LF);
    lemma_first_cr_found(t, 0, n);
    assert(s.subrange(1, 1 + n) =~= body);
    assert(s.skip(n + 3) =~= rest);
}

/// A line that is cut short has no line end yet.
pub proof fn lemma_line_cut(tag: u8, body: Seq<u8>, n: int)
    requires
        no_cr(body),
        1 <= n < body.len() + 3,
    ensures
        line_end(line(tag, body).take(n).skip(1)) == Err::<int, RespDeserializeError>(
            RespDeserializeError::NotComplete,
        ),
{
    let s = line(tag, body);
    let t = s.take(n).skip(1);
    let m = body.len() as int;
    assert(t.len() == n - 1);
    if n - 1 <= m {
        assert forall|j: int| 0 <= j < t.len() implies t[j] != CR by {
            assert(t[j] == body[j]);
        }
        lemma_first_cr_none(t, 0);
    } else {
        assert forall|j: int| 0 <= j < m implies t[j] != CR by {
            assert(t[j] == body[j]);
        }
        assert(t[m] == CR);
        lemma_first_cr_found(t, 0, m);
    }
}

/// Bytes below 128 are valid UTF-8.
pub proof fn lemma_ascii_valid(b: Seq<u8>)
    requires
        forall|i: int| 0 <= i < b.len() ==> #[trigger] b[i] < 128,
    ensures
        valid_utf8(b),
{
    let chars = Seq::new(b.len(), |i: int| b[i] as char);
    assert(is_ascii_chars(chars));
    is_ascii_chars_encode_utf8(chars);
    assert(encode_utf8(chars) =~= b) by {
        assert forall|i: int| 0 <= i < b.len() implies encode_utf8(chars)[i] == b[i] by {
            assert(chars[i] as u8 == encode_utf8(chars)[i]);
        }
    }
    encode_utf8_valid_utf8(chars);
}

/// The digits of a count are valid UTF-8 without a carriage return, and
/// read back as the count.
pub proof fn lemma_count(n: nat)
    ensures
        no_cr(digits_of(n)),
        valid_utf8(digits_of(n)),
        n <= u64::MAX ==> u64_of(digits_of(n)) == Some(n as u64),
        n <= i64::MAX ==> i64_of(digits_of(n)) == Some(n as i64),
{
    lemma_digits_of(n);
    lemma_unsigned_of_digits(n);
    lemma_signed_of_numeral(n as int);
    let d = digits_of(n);
    assert forall|i: int| 0 <= i < d.len() implies #[trigger] d[i] != CR && d[i] < 128 by {
        assert(is_digit(d[i]));
    }
    assert(is_digit(d[0]));
    lemma_ascii_valid(d);
}

/// The numeral of a 64-bit integer is valid UTF-8 without a carriage
/// return, and reads back as the integer.
pub proof fn lemma_integer(v: int)
    requires
        i64::MIN <= v <= i64::MAX,
    ensures
        no_cr(numeral(v)),
        valid_utf8(numeral(v)),
        i64_of(numeral(v)) == Some(v as i64),
{
    lemma_numeral_has_no_cr(v);
    lemma_signed_of_numeral(v);
    let d = numeral(v);
    if v < 0 {
        let m = digits_of((-v) as nat);
        lemma_digits_of((-v) as nat);
        assert forall|i: int| 0 <= i < d.len() implies #[trigger] d[i] < 128 by {
            if i > 0 {
                assert(d[i] == m[i - 1]);
                assert(is_digit(m[i - 1]));
            }
        }
    } else {
        lemma_digits_of(v as nat);
        assert forall|i: int| 0 <= i < d.len() implies #[trigger] d[i] < 128 by {
            assert(is_digit(d[i]));
        }
    }
    lemma_ascii_valid(d);
}

/// A bulk body, its line end and what follows fall apart again.
pub proof fn lemma_bulk_body(chars: Seq<char>, rest: Seq<u8>)
    ensures
        parse_bulk(
            encode_utf8(chars) + seq![CR, LF] + rest,
            encode_utf8(chars).len() as int,
        ) == Ok::<Seq<char>, RespDeserializeError>(chars),
{
    let body = encode_utf8(chars);
    let s = body + seq![CR, LF] + rest;
    encode_utf8_valid_utf8(chars);
    encode_utf8_decode_utf8(chars);
    assert(s[body.len() as int] == CR);
    assert(s[body.len() as int + 1] == LF);
    assert(s.take(body.len() as int) =~= body);
}

/// A key is written as the value that it is, and that value is the key
/// again.
pub proof fn lemma_key_as_value(k: KeyView)
    ensures
        encode_key(k) == encode(value_of(k)),
        key_of(value_of(k)) == Some(k),
        key_wire_safe(k) == wire_safe(value_of(k)),
        is_scalar(value_of(k)),
{
}

/// The bytes of values one after the other start with those of the first.
pub proof fn lemma_encode_all_front(items: Seq<RespView>)
    requires
        items.len() > 0,
    ensures
        encode_all(items) == encode(items[0]) + encode_all(items.drop_first()),
    decreases items.len(),
{
    if items.len() == 1 {
        assert(items.drop_last() =~= Seq::<RespView>::empty());
        assert(items.drop_first() =~= Seq::<RespView>::empty());
        assert(encode_all(items.drop_last()) =~= Seq::<u8>::empty());
        assert(encode_all(items) =~= encode(items[0]) + encode_all(items.drop_first()));
    } else {
        let t = items.drop_last();
        lemma_encode_all_front(t);
        assert(t.drop_first() =~= items.drop_first().drop_last());
        assert(items.drop_first().last() == items.last());
        assert(encode_all(items) =~= encode(items[0]) + encode_all(items.drop_first()));
    }
}

/// The bytes of entries one after the other start with those of the first.
pub proof fn lemma_encode_entries_front(m: Seq<(KeyView, RespView)>)
    requires
        m.len() > 0,
    ensures
        encode_entries(m) == encode_key(m[0].0) + encode(m[0].1) + encode_entries(m.drop_first()),
    decreases m.len(),
{
    if m.len() == 1 {
        assert(m.drop_last() =~= Seq::<(KeyView, RespView)>::empty());
        assert(m.drop_first() =~= Seq::<(KeyView, RespView)>::empty());
        assert(encode_entries(m.drop_last()) =~= Seq::<u8>::empty());
        assert(encode_entries(m) =~= encode_key(m[0].0) + encode(m[0].1) + encode_entries(
            m.drop_first(),
        ));
    } else {
        let t = m.drop_last();
        lemma_encode_entries_front(t);
        assert(t.drop_first() =~= m.drop_first().drop_last());
        assert(m.drop_first().last() == m.last());
        assert(encode_entries(m) =~= encode_key(m[0].0) + encode(m[0].1) + encode_entries(
            m.drop_first(),
        ));
    }
}

/// The bytes of keys one after the other start with those of the first.
pub proof fn lemma_encode_members_front(s: Seq<KeyView>)
    requires
        s.len() > 0,
    ensures
        encode_members(s) == encode_key(s[0]) + encode_members(s.drop_first()),
    decreases s.len(),
{
    if s.len() == 1 {
        assert(s.drop_last() =~= Seq::<KeyView>::empty());
        assert(s.drop_first() =~= Seq::<KeyView>::empty());
        assert(encode_members(s.drop_last()) =~= Seq::<u8>::empty());
        assert(encode_members(s) =~= encode_key(s[0]) + encode_members(s.drop_first()));
    } else {
        let t = s.drop_last();
        lemma_encode_members_front(t);
        assert(t.drop_first() =~= s.drop_first().drop_last());
        assert(s.drop_first().last() == s.last());
        assert(encode_members(s) =~= encode_key(s[0]) + encode_members(s.drop_first()));
    }
}

/// Reading no value takes nothing.
proof fn lemma_items_none(s: Seq<u8>, acc: Seq<RespView>)
    ensures
        parse_items(s, 0, acc) == done(acc, 0),
{
    reveal(parse_items);
    reveal(parse_value);
}

/// Reading values starts with reading one.
proof fn lemma_items_step(s: Seq<u8>, n: nat, acc: Seq<RespView>, x: RespView, c: int)
    requires
        n > 0,
        parse_value(s) == done(x, c),
        0 < c <= s.len(),
    ensures
        parse_items(s, n, acc) == shift(
            parse_items(s.skip(c), (n - 1) as nat, acc.push(x)),
            c,
        ),
{
    reveal(parse_items);
    reveal(parse_value);
}

/// Reading values fails where reading the first does.
proof fn lemma_items_fail(s: Seq<u8>, n: nat, acc: Seq<RespView>, e: RespDeserializeError)
    requires
        n > 0,
        parse_value(s) == failed::<RespView>(e),
    ensures
        parse_items(s, n, acc) == failed::<Seq<RespView>>(e),
{
    reveal(parse_items);
    reveal(parse_value);
}

/// Reading no entry takes nothing.
proof fn lemma_entries_none(s: Seq<u8>, acc: Seq<(KeyView, RespView)>)
    ensures
        parse_entries(s, 0, acc) == done(acc, 0),
{
    reveal(parse_entries);
    reveal(parse_value);
}

/// Reading entries starts with reading one key and one value.
proof fn lemma_entries_step(
    s: Seq<u8>,
    n: nat,
    acc: Seq<(KeyView, RespView)>,
    k: KeyView,
    x: RespView,
    c: int,
    d: int,
)
    requires
        n > 0,
        parse_value(s) == done(value_of(k), c),
        key_of(value_of(k)) == Some(k),
        0 < c <= s.len(),
        parse_value(s.skip(c)) == done(x, d),
        0 < d <= s.len() - c,
    ensures
        parse_entries(s, n, acc) == shift(
            parse_entries(s.skip(c + d), (n - 1) as nat, entries_insert(acc, k, x)),
            c + d,
        ),
{
    reveal(parse_entries);
    reveal(parse_value);
}

/// Reading entries fails where reading the first key does.
proof fn lemma_entries_fail_key(
    s: Seq<u8>,
    n: nat,
    acc: Seq<(KeyView, RespView)>,
    e: RespDeserializeError,
)
    requires
        n > 0,
        parse_value(s) == failed::<RespView>(e),
    ensures
        parse_entries(s, n, acc) == failed::<Seq<(KeyView, RespView)>>(e),
{
    reveal(parse_entries);
    reveal(parse_value);
}

/// Reading entries fails where reading the first value does.
proof fn lemma_entries_fail_value(
    s: Seq<u8>,
    n: nat,
    acc: Seq<(KeyView, RespView)>,
    k: KeyView,
    c: int,
    e: RespDeserializeError,
)
    requires
        n > 0,
        parse_value(s) == done(value_of(k), c),
        key_of(value_of(k)) == Some(k),
        0 < c <= s.len(),
        parse_value(s.skip(c)) == failed::<RespView>(e),
    ensures
        parse_entries(s, n, acc) == failed::<Seq<(KeyView, RespView)>>(e),
{
    reveal(parse_entries);
    reveal(parse_value);
}

/// Reading no key takes nothing.
proof fn lemma_members_none(s: Seq<u8>, acc: Seq<KeyView>)
    ensures
        parse_members(s, 0, acc) == done(acc, 0),
{
    reveal(parse_members);
    reveal(parse_value);
}

/// Reading keys starts with reading one.
proof fn lemma_members_step(s: Seq<u8>, n: nat, acc: Seq<KeyView>, k: KeyView, c: int)
    requires
        n > 0,
        parse_value(s) == done(value_of(k), c),
        key_of(value_of(k)) == Some(k),
        0 < c <= s.len(),
    ensures
        parse_members(s, n, acc) == shift(
            parse_members(s.skip(c), (n - 1) as nat, members_insert(acc, k)),
            c,
        ),
{
    reveal(parse_members);
    reveal(parse_value);
}

/// Reading keys fails where reading the first does.
proof fn lemma_members_fail(s: Seq<u8>, n: nat, acc: Seq<KeyView>, e: RespDeserializeError)
    requires
        n > 0,
        parse_value(s) == failed::<RespView>(e),
    ensures
        parse_members(s, n, acc) == failed::<Seq<KeyView>>(e),
{
    reveal(parse_members);
    reveal(parse_value);
}

/// Reading an array that is not null is reading its count, then its
/// values.
proof fn lemma_array_start(n: nat, tail: Seq<u8>)
    requires
        n <= i64::MAX,
    ensures
        parse_value(line(TAG_ARRAY, digits_of(n)) + tail) == (match parse_items(
            tail,
            n,
            Seq::empty(),
        ) {
            Ok((items, c)) => done(
                RespView::Array(items, false),
                line(TAG_ARRAY, digits_of(n)).len() + c,
            ),
            Err(e) => failed(e),
        }),
{
    reveal(parse_value);
    reveal(parse_items);
    reveal(parse_entries);
    reveal(parse_members);
    lemma_count(n);
    lemma_line_start(TAG_ARRAY, digits_of(n), tail);
}

/// Reading a map is reading its count, then its entries.
proof fn lemma_map_start(n: nat, tail: Seq<u8>)
    requires
        n <= u64::MAX,
    ensures
        parse_value(line(TAG_MAP, digits_of(n)) + tail) == (match parse_entries(
            tail,
            n,
            Seq::empty(),
        ) {
            Ok((m, c)) => done(RespView::RespMap(m), line(TAG_MAP, digits_of(n)).len() + c),
            Err(e) => failed(e),
        }),
{
    reveal(parse_value);
    reveal(parse_items);
    reveal(parse_entries);
    reveal(parse_members);
    lemma_count(n);
    lemma_line_start(TAG_MAP, digits_of(n), tail);
}

/// Reading a set is reading its count, then its keys.
proof fn lemma_set_start(n: nat, tail: Seq<u8>)
    requires
        n <= u64::MAX,
    ensures
        parse_value(line(TAG_SET, digits_of(n)) + tail) == (match parse_members(
            tail,
            n,
            Seq::empty(),
        ) {
            Ok((m, c)) => done(RespView::RespSet(m), line(TAG_SET, digits_of(n)).len() + c),
            Err(e) => failed(e),
        }),
{
    reveal(parse_value);
    reveal(parse_items);
    reveal(parse_entries);
    reveal(parse_members);
    lemma_count(n);
    lemma_line_start(TAG_SET, digits_of(n), tail);
}

/// The value that a line of text stands for under the tag `tag`.
pub open spec fn text_value(tag: u8, t: Seq<char>) -> RespView {
    if tag == TAG_SIMPLE_STRING {
        RespView::SimpleString(t)
    } else if tag == TAG_SIMPLE_ERROR {
        RespView::SimpleError(t)
    } else {
        RespView::Double(t)
    }
}

/// The value that a bulk body stands for under the tag `tag`.
pub open spec fn bulk_value(tag: u8, t: Seq<char>) -> RespView {
    if tag == TAG_BULK_STRING {
        RespView::BulkString(t, false)
    } else {
        RespView::BulkError(t)
    }
}

/// The null value that stands behind the tag `tag`.
pub open spec fn null_value(tag: u8) -> RespView {
    if tag == TAG_BULK_STRING {
        RespView::BulkString(Seq::empty(), true)
    } else {
        RespView::Array(Seq::empty(), true)
    }
}

/// Reading a line of text gives the text back.
proof fn lemma_text_line(tag: u8, t: Seq<char>, rest: Seq<u8>)
    requires
        tag == TAG_SIMPLE_STRING || tag == TAG_SIMPLE_ERROR || tag == TAG_DOUBLE,
        no_cr(encode_utf8(t)),
        tag == TAG_DOUBLE ==> is_double_text(encode_utf8(t)),
    ensures
        parse_value(line(tag, encode_utf8(t)) + rest) == done(
            text_value(tag, t),
            line(tag, encode_utf8(t)).len() as int,
        ),
        line(tag, encode_utf8(t)).len() >= 3,
{
    reveal(parse_value);
    encode_utf8_valid_utf8(t);
    encode_utf8_decode_utf8(t);
    lemma_line_start(tag, encode_utf8(t), rest);
}

/// Reading the line of an integer gives the integer back.
proof fn lemma_integer_line(i: int, rest: Seq<u8>)
    requires
        i64::MIN <= i <= i64::MAX,
    ensures
        parse_value(line(TAG_INTEGER, numeral(i)) + rest) == done(
            RespView::Integer(i),
            line(TAG_INTEGER, numeral(i)).len() as int,
        ),
        line(TAG_INTEGER, numeral(i)).len() >= 3,
{
    reveal(parse_value);
    lemma_integer(i);
    lemma_line_start(TAG_INTEGER, numeral(i), rest);
}

/// Reading the line of a truth value gives the truth value back.
proof fn lemma_boolean_line(b: bool, rest: Seq<u8>)
    ensures
        parse_value(line(TAG_BOOLEAN, seq![truth_byte(b)]) + rest) == done(
            RespView::Boolean(b),
            line(TAG_BOOLEAN, seq![truth_byte(b)]).len() as int,
        ),
        line(TAG_BOOLEAN, seq![truth_byte(b)]).len() >= 3,
{
    reveal(parse_value);
    lemma_line_start(TAG_BOOLEAN, seq![truth_byte(b)], rest);
}

/// Reading the line of the null value gives the null value.
proof fn lemma_null_line(rest: Seq<u8>)
    ensures
        parse_value(line(TAG_NULL, Seq::empty()) + rest) == done(
            RespView::Null,
            line(TAG_NULL, Seq::empty()).len() as int,
        ),
        line(TAG_NULL, Seq::empty()).len() >= 3,
{
    reveal(parse_value);
    let s = line(TAG_NULL, Seq::empty()) + rest;
    assert(s[0] == TAG_NULL && s[1] == CR && s[2] == LF);
}

/// Reading the length -1 behind the tag of a bulk string or an array gives
/// the null one.
proof fn lemma_null_mark(tag: u8, rest: Seq<u8>)
    requires
        tag == TAG_BULK_STRING || tag == TAG_ARRAY,
    ensures
        parse_value(line(tag, numeral(-1)) + rest) == done(
            null_value(tag),
            line(tag, numeral(-1)).len() as int,
        ),
        line(tag, numeral(-1)).len() >= 3,
{
    reveal(parse_value);
    lemma_integer(-1);
    lemma_line_start(tag, numeral(-1), rest);
}

/// Reading a length, a bulk body of that length and a line end gives the
/// text of the body back.
proof fn lemma_bulk(tag: u8, t: Seq<char>, rest: Seq<u8>)
    requires
        tag == TAG_BULK_STRING || tag == TAG_BULK_ERROR,
        tag == TAG_BULK_STRING ==> encode_utf8(t).len() <= i64::MAX,
        tag == TAG_BULK_ERROR ==> encode_utf8(t).len() <= u64::MAX,
    ensures
        parse_value(bulk(tag, encode_utf8(t)) + rest) == done(
            bulk_value(tag, t),
            bulk(tag, encode_utf8(t)).len() as int,
        ),
        bulk(tag, encode_utf8(t)).len() >= 3,
{
    reveal(parse_value);
    let body = encode_utf8(t);
    let head = digits_of(body.len());
    let tail = body + seq![CR, LF] + rest;
    let s = bulk(tag, body) + rest;
    lemma_count(body.len());
    lemma_line_start(tag, head, tail);
    lemma_bulk_body(t, rest);
    assert(s =~= line(tag, head) + tail);
}

/// Reading what was written for a value that holds no other, whatever
/// follows it, gives the value back and takes just the bytes written for
/// it.
pub proof fn lemma_read_back_scalar(v: RespView, rest: Seq<u8>)
    requires
        wire_safe(v),
        is_scalar(v),
    ensures
        parse_value(encode(v) + rest) == done(v, encode(v).len() as int),
        encode(v).len() >= 3,
{
    match v {
        RespView::SimpleString(t) => lemma_text_line(TAG_SIMPLE_STRING, t, rest),
        RespView::SimpleError(t) => lemma_text_line(TAG_SIMPLE_ERROR, t, rest),
        RespView::Integer(i) => lemma_integer_line(i, rest),
        RespView::BulkString(t, null) => {
            if null {
                lemma_null_mark(TAG_BULK_STRING, rest);
                assert(t =~= Seq::<char>::empty());
            } else {
                lemma_bulk(TAG_BULK_STRING, t, rest);
            }
        },
        RespView::Null => lemma_null_line(rest),
        RespView::Boolean(b) => lemma_boolean_line(b, rest),
        RespView::Double(t) => {
            lemma_double_text_has_no_cr(encode_utf8(t));
            lemma_text_line(TAG_DOUBLE, t, rest);
        },
        RespView::BulkError(t) => lemma_bulk(TAG_BULK_ERROR, t, rest),
        _ => {},
    }
}

/// Reading what was written for a key, whatever follows it, gives back
/// the value that the key is and takes just the bytes written for it.
pub proof fn lemma_read_back_key(k: KeyView, rest: Seq<u8>)
    requires
        key_wire_safe(k),
    ensures
        parse_value(encode_key(k) + rest) == done(value_of(k), encode_key(k).len() as int),
        key_of(value_of(k)) == Some(k),
        encode_key(k).len() >= 3,
{
    lemma_key_as_value(k);
    lemma_read_back_scalar(value_of(k), rest);
}

/// Reading what was written for a value, whatever follows it, gives the
/// value back and takes just the bytes written for it.
pub proof fn lemma_read_back(v: RespView, rest: Seq<u8>)
    requires
        wire_safe(v),
    ensures
        parse_value(encode(v) + rest) == done(v, encode(v).len() as int),
        encode(v).len() >= 3,
    decreases v,
{
    let s = encode(v) + rest;
    match v {
        RespView::Array(items, null) => {
            if null {
                lemma_null_mark(TAG_ARRAY, rest);
                assert(items =~= Seq::<RespView>::empty());
            } else {
                let head = line(TAG_ARRAY, digits_of(items.len()));
                let tail = encode_all(items) + rest;
                assert(s =~= head + tail);
                lemma_array_start(items.len(), tail);
                lemma_read_back_items(items, rest, Seq::empty());
                assert(Seq::<RespView>::empty() + items =~= items);
            }
        },
        RespView::RespMap(m) => {
            let head = line(TAG_MAP, digits_of(m.len()));
            let tail = encode_entries(m) + rest;
            assert(s =~= head + tail);
            lemma_map_start(m.len(), tail);
            assert(Seq::<(KeyView, RespView)>::empty() + m =~= m);
            lemma_read_back_entries(Seq::empty(), m, rest);
        },
        RespView::RespSet(m) => {
            let head = line(TAG_SET, digits_of(m.len()));
            let tail = encode_members(m) + rest;
            assert(s =~= head + tail);
            lemma_set_start(m.len(), tail);
            assert(Seq::<KeyView>::empty() + m =~= m);
            lemma_read_back_members(Seq::empty(), m, rest);
        },
        _ => {
            lemma_read_back_scalar(v, rest);
        },
    }
}

/// Reading what was written for values one after the other, whatever
/// follows, gives them back behind what was read before.
pub proof fn lemma_read_back_items(items: Seq<RespView>, rest: Seq<u8>, acc: Seq<RespView>)
    requires
        all_wire_safe(items),
    ensures
        parse_items(encode_all(items) + rest, items.len(), acc) == done(
            acc + items,
            encode_all(items).len() as int,
        ),
    decreases items,
{
    let s = encode_all(items) + rest;
    if items.len() == 0 {
        assert(acc + items =~= acc);
        lemma_items_none(s, acc);
    } else {
        let x = items[0];
        let t = items.drop_first();
        let after = encode_all(t) + rest;
        let c = encode(x).len() as int;
        assert(s == encode(x) + after && s.skip(c) == after) by {
            lemma_encode_all_front(items);
            assert(s =~= encode(x) + after);
            assert(s.skip(c) =~= after);
        }
        lemma_read_back(x, after);
        assert(all_wire_safe(t)) by {
            assert forall|i: int| 0 <= i < t.len() implies wire_safe(#[trigger] t[i]) by {
                assert(t[i] == items[i + 1]);
            }
        }
        lemma_read_back_items(t, rest, acc.push(x));
        assert(acc.push(x) + t =~= acc + items);
        lemma_items_step(s, items.len(), acc, x, c);
    }
}

/// Reading what was written for the entries `m`, which follow the entries
/// `before` in key order, gives them back behind `before`.
pub proof fn lemma_read_back_entries(
    before: Seq<(KeyView, RespView)>,
    m: Seq<(KeyView, RespView)>,
    rest: Seq<u8>,
)
    requires
        entries_sorted(before + m),
        entries_wire_safe(m),
    ensures
        parse_entries(encode_entries(m) + rest, m.len(), before) == done(
            before + m,
            encode_entries(m).len() as int,
        ),
    decreases m,
{
    let s = encode_entries(m) + rest;
    if m.len() == 0 {
        assert(before + m =~= before);
        lemma_entries_none(s, before);
    } else {
        let k = m[0].0;
        let x = m[0].1;
        let t = m.drop_first();
        let after = encode_entries(t) + rest;
        let mid = encode(x) + after;
        let c = encode_key(k).len() as int;
        let d = encode(x).len() as int;
        assert(s == encode_key(k) + mid && s.skip(c) == mid && s.skip(c + d) == after) by {
            lemma_encode_entries_front(m);
            assert(s =~= encode_key(k) + mid);
            assert(s.skip(c) =~= mid);
            assert(s.skip(c + d) =~= after);
        }
        assert(key_wire_safe(m[0].0) && wire_safe(m[0].1));
        lemma_read_back_key(k, mid);
        lemma_read_back(x, after);
        let next = before.push((k, x));
        assert(entries_insert(before, k, x) == next) by {
            let all = before + m;
            assert forall|i: int| 0 <= i < before.len() implies key_lt(
                (#[trigger] before[i]).0,
                k,
            ) by {
                assert(all[i] == before[i]);
                assert(all[before.len() as int] == m[0]);
                assert(key_lt(all[i].0, all[before.len() as int].0));
            }
            lemma_entries_insert_last(before, k, x);
        }
        assert(next + t =~= before + m);
        assert(entries_wire_safe(t)) by {
            assert forall|i: int| 0 <= i < t.len() implies key_wire_safe((#[trigger] t[i]).0)
                && wire_safe(t[i].1) by {
                assert(t[i] == m[i + 1]);
            }
        }
        lemma_read_back_entries(next, t, rest);
        lemma_entries_step(s, m.len(), before, k, x, c, d);
    }
}

/// Reading what was written for the keys `m`, which follow the keys
/// `before` in key order, gives them back behind `before`.
pub proof fn lemma_read_back_members(before: Seq<KeyView>, m: Seq<KeyView>, rest: Seq<u8>)
    requires
        members_sorted(before + m),
        members_wire_safe(m),
    ensures
        parse_members(encode_members(m) + rest, m.len(), before) == done(
            before + m,
            encode_members(m).len() as int,
        ),
    decreases m.len(),
{
    let s = encode_members(m) + rest;
    if m.len() == 0 {
        assert(before + m =~= before);
        lemma_members_none(s, before);
    } else {
        let k = m[0];
        let t = m.drop_first();
        let after = encode_members(t) + rest;
        let c = encode_key(k).len() as int;
        assert(s == encode_key(k) + after && s.skip(c) == after) by {
            lemma_encode_members_front(m);
            assert(s =~= encode_key(k) + after);
            assert(s.skip(c) =~= after);
        }
        assert(key_wire_safe(m[0]));
        lemma_read_back_key(k, after);
        let next = before.push(k);
        assert(members_insert(before, k) == next) by {
            let all = before + m;
            assert forall|i: int| 0 <= i < before.len() implies key_lt(
                #[trigger] before[i],
                k,
            ) by {
                assert(all[i] == before[i]);
                assert(all[before.len() as int] == m[0]);
                assert(key_lt(all[i], all[before.len() as int]));
            }
            lemma_members_insert_last(before, k);
        }
        assert(next + t =~= before + m);
        assert(members_wire_safe(t)) by {
            assert forall|i: int| 0 <= i < t.len() implies key_wire_safe(#[trigger] t[i]) by {
                assert(t[i] == m[i + 1]);
            }
        }
        lemma_read_back_members(next, t, rest);
        lemma_members_step(s, m.len(), before, k, c);
    }
}

/// A line under a tag that is cut short is not complete.
proof fn lemma_cut_in_line(tag: u8, body: Seq<u8>, n: int)
    requires
        no_cr(body),
        is_tag(tag),
        tag != TAG_NULL,
        0 <= n < body.len() + 3,
    ensures
        parse_value(line(tag, body).take(n)) == failed::<RespView>(
            RespDeserializeError::NotComplete,
        ),
{
    reveal(parse_value);
    let p = line(tag, body).take(n);
    if n >= 3 {
        assert(p[0] == tag);
        lemma_line_cut(tag, body, n);
    }
}

/// What starts with a line and is cut within the line is not complete.
proof fn lemma_cut_in_head(tag: u8, body: Seq<u8>, tail: Seq<u8>, n: int)
    requires
        no_cr(body),
        is_tag(tag),
        tag != TAG_NULL,
        0 <= n < body.len() + 3,
    ensures
        parse_value((line(tag, body) + tail).take(n)) == failed::<RespView>(
            RespDeserializeError::NotComplete,
        ),
{
    assert((line(tag, body) + tail).take(n) =~= line(tag, body).take(n));
    lemma_cut_in_line(tag, body, n);
}

/// A bulk value that is cut short is not complete.
proof fn lemma_cut_bulk(tag: u8, t: Seq<char>, n: int)
    requires
        tag == TAG_BULK_STRING || tag == TAG_BULK_ERROR,
        tag == TAG_BULK_STRING ==> encode_utf8(t).len() <= i64::MAX,
        tag == TAG_BULK_ERROR ==> encode_utf8(t).len() <= u64::MAX,
        0 <= n < bulk(tag, encode_utf8(t)).len(),
    ensures
        parse_value(bulk(tag, encode_utf8(t)).take(n)) == failed::<RespView>(
            RespDeserializeError::NotComplete,
        ),
{
    let body = encode_utf8(t);
    let digits = digits_of(body.len());
    let head = line(tag, digits);
    let s = bulk(tag, body);
    lemma_count(body.len());
    if n < head.len() {
        assert(s =~= head + (body + seq![CR, LF]));
        lemma_cut_in_head(tag, digits, body + seq![CR, LF], n);
    } else {
        reveal(parse_value);
        let cut = (body + seq![CR, LF]).take(n - head.len());
        assert(s.take(n) =~= head + cut);
        lemma_line_start(tag, digits, cut);
    }
}

/// A value that holds no other and is cut short is not complete.
pub proof fn lemma_cut_scalar(v: RespView, n: int)
    requires
        wire_safe(v),
        is_scalar(v),
        0 <= n < encode(v).len(),
    ensures
        parse_value(encode(v).take(n)) == failed::<RespView>(RespDeserializeError::NotComplete),
{
    match v {
        RespView::SimpleString(t) => lemma_cut_in_line(TAG_SIMPLE_STRING, encode_utf8(t), n),
        RespView::SimpleError(t) => lemma_cut_in_line(TAG_SIMPLE_ERROR, encode_utf8(t), n),
        RespView::Integer(i) => {
            lemma_integer(i);
            lemma_cut_in_line(TAG_INTEGER, numeral(i), n);
        },
        RespView::BulkString(t, null) => {
            if null {
                lemma_integer(-1);
                lemma_cut_in_line(TAG_BULK_STRING, numeral(-1), n);
            } else {
                lemma_cut_bulk(TAG_BULK_STRING, t, n);
            }
        },
        RespView::Null => {
            reveal(parse_value);
        },
        RespView::Boolean(b) => lemma_cut_in_line(TAG_BOOLEAN, seq![truth_byte(b)], n),
        RespView::Double(t) => {
            lemma_double_text_has_no_cr(encode_utf8(t));
            lemma_cut_in_line(TAG_DOUBLE, encode_utf8(t), n);
        },
        RespView::BulkError(t) => lemma_cut_bulk(TAG_BULK_ERROR, t, n),
        _ => {},
    }
}

/// A key that is cut short is not complete.
pub proof fn lemma_cut_key(k: KeyView, n: int)
    requires
        key_wire_safe(k),
        0 <= n < encode_key(k).len(),
    ensures
        parse_value(encode_key(k).take(n)) == failed::<RespView>(
            RespDeserializeError::NotComplete,
        ),
{
    lemma_key_as_value(k);
    lemma_cut_scalar(value_of(k), n);
}

/// A value that is cut short is not complete.
pub proof fn lemma_cut_short(v: RespView, n: int)
    requires
        wire_safe(v),
        0 <= n < encode(v).len(),
    ensures
        parse_value(encode(v).take(n)) == failed::<RespView>(RespDeserializeError::NotComplete),
    decreases v,
{
    let s = encode(v);
    match v {
        RespView::Array(items, null) => {
            if null {
                lemma_integer(-1);
                lemma_cut_in_line(TAG_ARRAY, numeral(-1), n);
            } else {
                let digits = digits_of(items.len());
                let head = line(TAG_ARRAY, digits);
                lemma_count(items.len());
                if n < head.len() {
                    lemma_cut_in_head(TAG_ARRAY, digits, encode_all(items), n);
                } else {
                    let cut = encode_all(items).take(n - head.len());
                    assert(s.take(n) =~= head + cut);
                    lemma_array_start(items.len(), cut);
                    lemma_cut_items(items, n - head.len(), Seq::empty());
                }
            }
        },
        RespView::RespMap(m) => {
            let digits = digits_of(m.len());
            let head = line(TAG_MAP, digits);
            lemma_count(m.len());
            if n < head.len() {
                lemma_cut_in_head(TAG_MAP, digits, encode_entries(m), n);
            } else {
                let cut = encode_entries(m).take(n - head.len());
                assert(s.take(n) =~= head + cut);
                lemma_map_start(m.len(), cut);
                lemma_cut_entries(m, n - head.len(), Seq::empty());
            }
        },
        RespView::RespSet(m) => {
            let digits = digits_of(m.len());
            let head = line(TAG_SET, digits);
            lemma_count(m.len());
            if n < head.len() {
                lemma_cut_in_head(TAG_SET, digits, encode_members(m), n);
            } else {
                let cut = encode_members(m).take(n - head.len());
                assert(s.take(n) =~= head + cut);
                lemma_set_start(m.len(), cut);
                lemma_cut_members(m, n - head.len(), Seq::empty());
            }
        },
        _ => {
            lemma_cut_scalar(v, n);
        },
    }
}

/// Values one after the other that are cut short are not complete.
pub proof fn lemma_cut_items(items: Seq<RespView>, n: int, acc: Seq<RespView>)
    requires
        all_wire_safe(items),
        0 <= n < encode_all(items).len(),
    ensures
        parse_items(encode_all(items).take(n), items.len(), acc) == failed::<Seq<RespView>>(
            RespDeserializeError::NotComplete,
        ),
    decreases items,
{
    let q = encode_all(items).take(n);
    if items.len() > 0 {
        let x = items[0];
        let t = items.drop_first();
        let c = encode(x).len() as int;
        lemma_encode_all_front(items);
        if n < c {
            assert(q =~= encode(x).take(n));
            lemma_cut_short(x, n);
            lemma_items_fail(q, items.len(), acc, RespDeserializeError::NotComplete);
        } else {
            let cut = encode_all(t).take(n - c);
            assert(q == encode(x) + cut && q.skip(c) == cut) by {
                assert(q =~= encode(x) + cut);
                assert(q.skip(c) =~= cut);
            }
            lemma_read_back(x, cut);
            assert(all_wire_safe(t)) by {
                assert forall|i: int| 0 <= i < t.len() implies wire_safe(#[trigger] t[i]) by {
                    assert(t[i] == items[i + 1]);
                }
            }
            lemma_cut_items(t, n - c, acc.push(x));
            lemma_items_step(q, items.len(), acc, x, c);
        }
    }
}

/// Entries one after the other that are cut short are not complete.
pub proof fn lemma_cut_entries(
    m: Seq<(KeyView, RespView)>,
    n: int,
    acc: Seq<(KeyView, RespView)>,
)
    requires
        entries_wire_safe(m),
        0 <= n < encode_entries(m).len(),
    ensures
        parse_entries(encode_entries(m).take(n), m.len(), acc) == failed::<
            Seq<(KeyView, RespView)>,
        >(RespDeserializeError::NotComplete),
    decreases m,
{
    let q = encode_entries(m).take(n);
    if m.len() > 0 {
        let k = m[0].0;
        let x = m[0].1;
        let t = m.drop_first();
        let c = encode_key(k).len() as int;
        let d = encode(x).len() as int;
        lemma_encode_entries_front(m);
        assert(key_wire_safe(m[0].0) && wire_safe(m[0].1));
        if n < c {
            assert(q =~= encode_key(k).take(n));
            lemma_cut_key(k, n);
            lemma_entries_fail_key(q, m.len(), acc, RespDeserializeError::NotComplete);
        } else if n < c + d {
            let cut = encode(x).take(n - c);
            assert(q == encode_key(k) + cut && q.skip(c) == cut) by {
                assert(q =~= encode_key(k) + cut);
                assert(q.skip(c) =~= cut);
            }
            lemma_read_back_key(k, cut);
            lemma_cut_short(x, n - c);
            lemma_entries_fail_value(q, m.len(), acc, k, c, RespDeserializeError::NotComplete);
        } else {
            let cut = encode_entries(t).take(n - c - d);
            let mid = encode(x) + cut;
            assert(q == encode_key(k) + mid && q.skip(c) == mid && q.skip(c + d) == cut) by {
                assert(q =~= encode_key(k) + mid);
                assert(q.skip(c) =~= mid);
                assert(q.skip(c + d) =~= cut);
            }
            lemma_read_back_key(k, mid);
            lemma_read_back(x, cut);
            assert(entries_wire_safe(t)) by {
                assert forall|i: int| 0 <= i < t.len() implies key_wire_safe(
                    (#[trigger] t[i]).0,
                ) && wire_safe(t[i].1) by {
                    assert(t[i] == m[i + 1]);
                }
            }
            lemma_cut_entries(t, n - c - d, entries_insert(acc, k, x));
            lemma_entries_step(q, m.len(), acc, k, x, c, d);
        }
    }
}

/// Keys one after the other that are cut short are not complete.
pub proof fn lemma_cut_members(m: Seq<KeyView>, n: int, acc: Seq<KeyView>)
    requires
        members_wire_safe(m),
        0 <= n < encode_members(m).len(),
    ensures
        parse_members(encode_members(m).take(n), m.len(), acc) == failed::<Seq<KeyView>>(
            RespDeserializeError::NotComplete,
        ),
    decreases m.len(),
{
    let q = encode_members(m).take(n);
    if m.len() > 0 {
        let k = m[0];
        let t = m.drop_first();
        let c = encode_key(k).len() as int;
        lemma_encode_members_front(m);
        assert(key_wire_safe(m[0]));
        if n < c {
            assert(q =~= encode_key(k).take(n));
            lemma_cut_key(k, n);
            lemma_members_fail(q, m.len(), acc, RespDeserializeError::NotComplete);
        } else {
            let cut = encode_members(t).take(n - c);
            assert(q == encode_key(k) + cut && q.skip(c) == cut) by {
                assert(q =~= encode_key(k) + cut);
                assert(q.skip(c) =~= cut);
            }
            lemma_read_back_key(k, cut);
            assert(members_wire_safe(t)) by {
                assert forall|i: int| 0 <= i < t.len() implies key_wire_safe(#[trigger] t[i]) by {
                    assert(t[i] == m[i + 1]);
                }
            }
            lemma_cut_members(t, n - c, members_insert(acc, k));
            lemma_members_step(q, m.len(), acc, k, c);
        }
    }
}

/// Incremental feed: of the bytes written for a value that can go over the
/// wire, every run from the start that is not yet all of them is told to
/// be not complete.
pub proof fn lemma_incremental_feed(v: RespView, n: int)
    requires
        wire_safe(v),
        0 <= n < encode(v).len(),
    ensures
        decoded(encode(v).take(n)) == Err::<RespView, RespDeserializeError>(
            RespDeserializeError::NotComplete,
        ),
{
    lemma_cut_short(v, n);
}

/// Round trip: the bytes written for a value that can go over the wire
/// stand for that value.
pub proof fn lemma_round_trip(v: RespView)
    requires
        wire_safe(v),
    ensures
        decoded(encode(v)) == Ok::<RespView, RespDeserializeError>(v),
{
    lemma_read_back(v, Seq::empty());
    assert(encode(v) + Seq::<u8>::empty() =~= encode(v));
}

} // verus!
