//! The decoder: the value that a run of bytes stands for, or why it stands
//! for none. A run that is the start of a value and not yet all of it is
//! not complete; that is told apart from a run that no value starts with.
use super::canonical::{in_key_order, lemma_decoded_in_key_order};
use super::composite::{entries_insert, key_of, members_insert, views_of};
use super::decimal::{i64_of, parse_i64, parse_u64, u64_of};
use super::double::is_double_text;
use super::serialize::{
    CR, LF, TAG_ARRAY, TAG_BOOLEAN, TAG_BULK_ERROR, TAG_BULK_STRING, TAG_DOUBLE, TAG_INTEGER,
    TAG_MAP, TAG_NULL, TAG_SET, TAG_SIMPLE_ERROR, TAG_SIMPLE_STRING,
};
use super::{
    Array, Boolean, BulkError, BulkString, Double, Integer, Key, KeyView, Null, Resp, RespMap,
    RespSet, RespView, SimpleError, SimpleString,
};
use bytes::{Buf, BytesMut};
use vstd::prelude::*;
use vstd::slice::slice_subrange;
use vstd::utf8::{decode_utf8, valid_utf8};

verus! {

/// Why a run of bytes stands for no value.
#[derive(Debug, Clone, Copy, PartialEq, Eq, Structural)]
pub enum RespDeserializeError {
    /// The first byte is the tag of no type.
    UnknownRespType,
    /// The bytes end before the value does.
    NotComplete,
    /// The bytes break the grammar.
    WrongFormat,
    /// A text is not UTF-8.
    Utf8Error,
}

/// The outcome of reading one value: the value and the number of bytes it
/// took, or why there is none.
pub type Parsed<T> = Result<(T, int), RespDeserializeError>;

/// `r` with `d` more bytes taken.
pub open spec fn shift<T>(r: Parsed<T>, d: int) -> Parsed<T> {
    match r {
        Ok((x, c)) => Ok((x, c + d)),
        Err(e) => Err(e),
    }
}

/// `b` is the tag of a type.
pub open spec fn is_tag(b: u8) -> bool {
    b == TAG_SIMPLE_STRING || b == TAG_SIMPLE_ERROR || b == TAG_INTEGER || b == TAG_BULK_STRING
        || b == TAG_ARRAY || b == TAG_NULL || b == TAG_BOOLEAN || b == TAG_DOUBLE || b
        == TAG_BULK_ERROR || b == TAG_MAP || b == TAG_SET
}

/// The first place at or after `from` where `s` holds a carriage return;
/// the length of `s` if there is none.
pub open spec fn first_cr(s: Seq<u8>, from: int) -> int
    decreases s.len() - from,
{
    if 0 <= from < s.len() && s[from] != CR {
        first_cr(s, from + 1)
    } else {
        from
    }
}

/// Where the first line of `s` ends: the place of its first carriage
/// return, which a line feed must follow. Without a carriage return, or
/// with nothing behind it, the line is not complete.
pub open spec fn line_end(s: Seq<u8>) -> Result<int, RespDeserializeError> {
    let i = first_cr(s, 0);
    if i < 0 || i + 1 >= s.len() {
        Err(RespDeserializeError::NotComplete)
    } else if s[i + 1] != LF {
        Err(RespDeserializeError::WrongFormat)
    } else {
        Ok(i)
    }
}

/// The text that the bytes `body` encode.
pub open spec fn parse_text(body: Seq<u8>) -> Result<Seq<char>, RespDeserializeError> {
    if valid_utf8(body) {
        Ok(decode_utf8(body))
    } else {
        Err(RespDeserializeError::Utf8Error)
    }
}

/// The text of a bulk body of `n` bytes at the start of `s`, which a line
/// end must follow.
pub open spec fn parse_bulk(s: Seq<u8>, n: int) -> Result<Seq<char>, RespDeserializeError> {
    if s.len() < n + 2 {
        Err(RespDeserializeError::NotComplete)
    } else if s[n] != CR || s[n + 1] != LF {
        Err(RespDeserializeError::WrongFormat)
    } else {
        parse_text(s.take(n))
    }
}

/// The truth value that the line body `body` stands for.
pub open spec fn parse_boolean(body: Seq<u8>) -> Result<bool, RespDeserializeError> {
    if body.len() == 1 && body[0] == 116 {
        Ok(true)
    } else if body.len() == 1 && body[0] == 102 {
        Ok(false)
    } else {
        Err(RespDeserializeError::WrongFormat)
    }
}

/// The value at the start of `s` and the number of bytes it takes.
#[verifier::opaque]
pub open spec fn parse_value(s: Seq<u8>) -> Parsed<RespView>
    decreases s.len(), 0nat,
{
    if s.len() < 3 {
        Err(RespDeserializeError::NotComplete)
    } else if s[0] == TAG_NULL {
        if s[1] == CR && s[2] == LF {
            Ok((RespView::Null, 3))
        } else {
            Err(RespDeserializeError::WrongFormat)
        }
    } else if !is_tag(s[0]) {
        Err(RespDeserializeError::UnknownRespType)
    } else {
        match line_end(s.skip(1)) {
            Err(e) => Err(e),
            Ok(i) => {
                let body = s.subrange(1, 1 + i);
                let next = i + 3;
                let tail = s.skip(next);
                if s[0] == TAG_BOOLEAN {
                    match parse_boolean(body) {
                        Ok(b) => Ok((RespView::Boolean(b), next)),
                        Err(e) => Err(e),
                    }
                } else if !valid_utf8(body) {
                    Err(RespDeserializeError::Utf8Error)
                } else if s[0] == TAG_SIMPLE_STRING {
                    Ok((RespView::SimpleString(decode_utf8(body)), next))
                } else if s[0] == TAG_SIMPLE_ERROR {
                    Ok((RespView::SimpleError(decode_utf8(body)), next))
                } else if s[0] == TAG_INTEGER {
                    match i64_of(body) {
                        Some(v) => Ok((RespView::Integer(v as int), next)),
                        None => Err(RespDeserializeError::WrongFormat),
                    }
                } else if s[0] == TAG_DOUBLE {
                    if is_double_text(body) {
                        Ok((RespView::Double(decode_utf8(body)), next))
                    } else {
                        Err(RespDeserializeError::WrongFormat)
                    }
                } else if s[0] == TAG_BULK_STRING {
                    match i64_of(body) {
                        Some(n) => if n == -1 {
                            Ok((RespView::BulkString(Seq::empty(), true), next))
                        } else if n < 0 {
                            Err(RespDeserializeError::WrongFormat)
                        } else {
                            match parse_bulk(tail, n as int) {
                                Ok(t) => Ok((RespView::BulkString(t, false), next + n + 2)),
                                Err(e) => Err(e),
                            }
                        },
                        None => Err(RespDeserializeError::WrongFormat),
                    }
                } else if s[0] == TAG_BULK_ERROR {
                    match u64_of(body) {
                        Some(n) => match parse_bulk(tail, n as int) {
                            Ok(t) => Ok((RespView::BulkError(t), next + n + 2)),
                            Err(e) => Err(e),
                        },
                        None => Err(RespDeserializeError::WrongFormat),
                    }
                } else if s[0] == TAG_ARRAY {
                    match i64_of(body) {
                        Some(n) => if n == -1 {
                            Ok((RespView::Array(Seq::empty(), true), next))
                        } else if n < 0 {
                            Err(RespDeserializeError::WrongFormat)
                        } else {
                            match parse_items(tail, n as nat, Seq::empty()) {
                                Ok((items, c)) => Ok((RespView::Array(items, false), next + c)),
                                Err(e) => Err(e),
                            }
                        },
                        None => Err(RespDeserializeError::WrongFormat),
                    }
                } else if s[0] == TAG_MAP {
                    match u64_of(body) {
                        Some(n) => match parse_entries(tail, n as nat, Seq::empty()) {
                            Ok((m, c)) => Ok((RespView::RespMap(m), next + c)),
                            Err(e) => Err(e),
                        },
                        None => Err(RespDeserializeError::WrongFormat),
                    }
                } else {
                    match u64_of(body) {
                        Some(n) => match parse_members(tail, n as nat, Seq::empty()) {
                            Ok((m, c)) => Ok((RespView::RespSet(m), next + c)),
                            Err(e) => Err(e),
                        },
                        None => Err(RespDeserializeError::WrongFormat),
                    }
                }
            },
        }
    }
}

/// `acc` and the `n` values at the start of `s`, with the number of bytes
/// that those take.
#[verifier::opaque]
pub open spec fn parse_items(s: Seq<u8>, n: nat, acc: Seq<RespView>) -> Parsed<Seq<RespView>>
    decreases s.len(), n + 1,
{
    if n == 0 {
        Ok((acc, 0))
    } else {
        match parse_value(s) {
            Err(e) => Err(e),
            Ok((v, c)) => if 0 < c <= s.len() {
                shift(parse_items(s.skip(c), (n - 1) as nat, acc.push(v)), c)
            } else {
                Err(RespDeserializeError::WrongFormat)
            },
        }
    }
}

/// `acc` with the `n` entries at the start of `s` bound one after the
/// other, and the number of bytes that those take. An entry is a key and a
/// value; a value in the place of a key that cannot be one breaks the
/// grammar.
#[verifier::opaque]
pub open spec fn parse_entries(s: Seq<u8>, n: nat, acc: Seq<(KeyView, RespView)>) -> Parsed<
    Seq<(KeyView, RespView)>,
>
    decreases s.len(), n + 1,
{
    if n == 0 {
        Ok((acc, 0))
    } else {
        match parse_value(s) {
            Err(e) => Err(e),
            Ok((kv, c)) => if 0 < c <= s.len() {
                match key_of(kv) {
                    None => Err(RespDeserializeError::WrongFormat),
                    Some(k) => match parse_value(s.skip(c)) {
                        Err(e) => Err(e),
                        Ok((v, d)) => if 0 < d <= s.len() - c {
                            shift(
                                parse_entries(
                                    s.skip(c + d),
                                    (n - 1) as nat,
                                    entries_insert(acc, k, v),
                                ),
                                c + d,
                            )
                        } else {
                            Err(RespDeserializeError::WrongFormat)
                        },
                    },
                }
            } else {
                Err(RespDeserializeError::WrongFormat)
            },
        }
    }
}

/// `acc` with the `n` keys at the start of `s` added one after the other,
/// and the number of bytes that those take.
#[verifier::opaque]
pub open spec fn parse_members(s: Seq<u8>, n: nat, acc: Seq<KeyView>) -> Parsed<Seq<KeyView>>
    decreases s.len(), n + 1,
{
    if n == 0 {
        Ok((acc, 0))
    } else {
        match parse_value(s) {
            Err(e) => Err(e),
            Ok((kv, c)) => if 0 < c <= s.len() {
                match key_of(kv) {
                    None => Err(RespDeserializeError::WrongFormat),
                    Some(k) => shift(
                        parse_members(s.skip(c), (n - 1) as nat, members_insert(acc, k)),
                        c,
                    ),
                }
            } else {
                Err(RespDeserializeError::WrongFormat)
            },
        }
    }
}

/// The value that the bytes `s` stand for: the one that they start with,
/// where it takes them all.
pub open spec fn decoded(s: Seq<u8>) -> Result<RespView, RespDeserializeError> {
    match parse_value(s) {
        Ok((v, c)) => if c == s.len() {
            Ok(v)
        } else {
            Err(RespDeserializeError::WrongFormat)
        },
        Err(e) => Err(e),
    }
}

/// The outcome of reading `v` from `c` bytes.
pub open spec fn done<T>(v: T, c: int) -> Parsed<T> {
    Ok((v, c))
}

/// The outcome of reading nothing, for the reason `e`.
pub open spec fn failed<T>(e: RespDeserializeError) -> Parsed<T> {
    Err(e)
}

/// The first carriage return of a suffix is that of the whole, seen from
/// the start of the suffix.
pub proof fn lemma_first_cr_skip(s: Seq<u8>, k: int, from: int)
    requires
        0 <= k,
        0 <= from,
        k + from <= s.len(),
    ensures
        first_cr(s.skip(k), from) + k == first_cr(s, k + from),
    decreases s.len() - from - k,
{
    let t = s.skip(k);
    if from < t.len() && t[from] != CR {
        lemma_first_cr_skip(s, k, from + 1);
    }
}

/// `core::str::from_utf8`: the text that `bytes` encode where they are
/// valid UTF-8, and nothing where they are not.
#[verifier::external_body]
fn utf8_text(bytes: &[u8]) -> (r: Option<&str>)
    ensures
        r is Some <==> valid_utf8(bytes@),
        r matches Some(t) ==> t@ == decode_utf8(bytes@),
{
    core::str::from_utf8(bytes).ok()
}

fn is_tag_byte(b: u8) -> (r: bool)
    ensures
        r == is_tag(b),
{
    b == TAG_SIMPLE_STRING || b == TAG_SIMPLE_ERROR || b == TAG_INTEGER || b == TAG_BULK_STRING
        || b == TAG_ARRAY || b == TAG_NULL || b == TAG_BOOLEAN || b == TAG_DOUBLE || b
        == TAG_BULK_ERROR || b == TAG_MAP || b == TAG_SET
}

/// The place of the carriage return that ends the line that starts at
/// `from`.
fn find_line(s: &[u8], from: usize) -> (r: Result<usize, RespDeserializeError>)
    requires
        from <= s.len(),
    ensures
        match r {
            Ok(i) => from <= i && i + 2 <= s.len() && line_end(s@.skip(from as int)) == Ok::<
                int,
                RespDeserializeError,
            >(i - from),
            Err(e) => line_end(s@.skip(from as int)) == Err::<int, RespDeserializeError>(e),
        },
{
    let mut i: usize = from;
    while i < s.len() && s[i] != CR
        invariant
            from <= i <= s.len(),
            first_cr(s@, from as int) == first_cr(s@, i as int),
        decreases s.len() - i,
    {
        i = i + 1;
    }
    proof {
        lemma_first_cr_skip(s@, from as int, 0);
    }
    if i >= s.len() || i + 1 >= s.len() {
        return Err(RespDeserializeError::NotComplete);
    }
    if s[i + 1] != LF {
        return Err(RespDeserializeError::WrongFormat);
    }
    Ok(i)
}

/// Reads a bulk body of `n` bytes and its line end at `pos`.
fn parse_bulk_at<'a>(s: &'a [u8], pos: usize, n: u64) -> (r: Result<
    (&'a str, usize),
    RespDeserializeError,
>)
    requires
        pos <= s.len(),
    ensures
        match r {
            Ok((t, next)) => next == pos + n + 2 && next <= s.len() && parse_bulk(
                s@.skip(pos as int),
                n as int,
            ) == Ok::<Seq<char>, RespDeserializeError>(t@),
            Err(e) => parse_bulk(s@.skip(pos as int), n as int) == Err::<
                Seq<char>,
                RespDeserializeError,
            >(e),
        },
{
    let remaining: usize = s.len() - pos;
    if remaining < 2 || ((remaining - 2) as u64) < n {
        return Err(RespDeserializeError::NotComplete);
    }
    let len: usize = n as usize;
    if s[pos + len] != CR || s[pos + len + 1] != LF {
        return Err(RespDeserializeError::WrongFormat);
    }
    let body = slice_subrange(s, pos, pos + len);
    assert(body@ =~= s@.skip(pos as int).take(n as int));
    match utf8_text(body) {
        Some(t) => Ok((t, pos + len + 2)),
        None => Err(RespDeserializeError::Utf8Error),
    }
}

/// Reads the value that starts at `pos`, and says where the next one
/// starts.
fn parse_at(s: &[u8], pos: usize) -> (r: Result<(Resp, usize), RespDeserializeError>)
    requires
        pos <= s.len(),
    ensures
        match r {
            Ok((v, next)) => pos < next <= s.len() && parse_value(s@.skip(pos as int)) == done(
                v@,
                next - pos,
            ),
            Err(e) => parse_value(s@.skip(pos as int)) == failed::<RespView>(e),
        },
    decreases s.len() - pos, 0nat,
{
    let ghost t = s@.skip(pos as int);
    proof {
        reveal(parse_value);
        reveal(parse_items);
        reveal(parse_entries);
        reveal(parse_members);
    }
    if s.len() - pos < 3 {
        return Err(RespDeserializeError::NotComplete);
    }
    let tag = s[pos];
    assert(t[0] == tag && t[1] == s@[pos + 1] && t[2] == s@[pos + 2]);
    if tag == TAG_NULL {
        if s[pos + 1] == CR && s[pos + 2] == LF {
            return Ok((Resp::Null(Null), pos + 3));
        } else {
            return Err(RespDeserializeError::WrongFormat);
        }
    }
    if !is_tag_byte(tag) {
        return Err(RespDeserializeError::UnknownRespType);
    }
    assert(t.skip(1) =~= s@.skip(pos + 1));
    let cr = match find_line(s, pos + 1) {
        Ok(i) => i,
        Err(e) => {
            return Err(e);
        },
    };
    let body = slice_subrange(s, pos + 1, cr);
    let next: usize = cr + 2;
    let ghost i = cr - pos - 1;
    assert(body@ =~= t.subrange(1, 1 + i));
    assert(t.skip(i + 3) =~= s@.skip(next as int));
    if tag == TAG_BOOLEAN {
        if body.len() == 1 && body[0] == 116 {
            return Ok((Resp::Boolean(Boolean::new(true)), next));
        } else if body.len() == 1 && body[0] == 102 {
            return Ok((Resp::Boolean(Boolean::new(false)), next));
        } else {
            return Err(RespDeserializeError::WrongFormat);
        }
    }
    let text = match utf8_text(body) {
        Some(x) => x,
        None => {
            return Err(RespDeserializeError::Utf8Error);
        },
    };
    if tag == TAG_SIMPLE_STRING {
        Ok((Resp::SimpleString(SimpleString::new(text)), next))
    } else if tag == TAG_SIMPLE_ERROR {
        Ok((Resp::SimpleError(SimpleError::new(text)), next))
    } else if tag == TAG_INTEGER {
        match parse_i64(body) {
            Some(v) => Ok((Resp::Integer(Integer::new(v)), next)),
            None => Err(RespDeserializeError::WrongFormat),
        }
    } else if tag == TAG_DOUBLE {
        proof {
            vstd::utf8::decode_utf8_encode_utf8(body@);
        }
        match Double::new(text) {
            Some(d) => Ok((Resp::Double(d), next)),
            None => Err(RespDeserializeError::WrongFormat),
        }
    } else if tag == TAG_BULK_STRING {
        match parse_i64(body) {
            Some(n) => {
                if n == -1 {
                    let empty = BulkString { value: String::new(), is_null: true };
                    Ok((Resp::BulkString(empty), next))
                } else if n < 0 {
                    Err(RespDeserializeError::WrongFormat)
                } else {
                    match parse_bulk_at(s, next, n as u64) {
                        Ok((x, end)) => Ok((Resp::BulkString(BulkString::new(x, false)), end)),
                        Err(e) => Err(e),
                    }
                }
            },
            None => Err(RespDeserializeError::WrongFormat),
        }
    } else if tag == TAG_BULK_ERROR {
        match parse_u64(body) {
            Some(n) => match parse_bulk_at(s, next, n) {
                Ok((x, end)) => Ok((Resp::BulkError(BulkError::new(x)), end)),
                Err(e) => Err(e),
            },
            None => Err(RespDeserializeError::WrongFormat),
        }
    } else if tag == TAG_ARRAY {
        match parse_i64(body) {
            Some(n) => {
                if n == -1 {
                    let a = Array::new(Vec::new(), true);
                    assert(a@ =~= Seq::<RespView>::empty());
                    Ok((Resp::Array(a), next))
                } else if n < 0 {
                    Err(RespDeserializeError::WrongFormat)
                } else {
                    match parse_items_at(s, next, n as u64) {
                        Ok((items, end)) => Ok((Resp::Array(Array::new(items, false)), end)),
                        Err(e) => Err(e),
                    }
                }
            },
            None => Err(RespDeserializeError::WrongFormat),
        }
    } else if tag == TAG_MAP {
        match parse_u64(body) {
            Some(n) => match parse_entries_at(s, next, n) {
                Ok((m, end)) => Ok((Resp::RespMap(Box::new(m)), end)),
                Err(e) => Err(e),
            },
            None => Err(RespDeserializeError::WrongFormat),
        }
    } else {
        match parse_u64(body) {
            Some(n) => match parse_members_at(s, next, n) {
                Ok((m, end)) => Ok((Resp::RespSet(m), end)),
                Err(e) => Err(e),
            },
            None => Err(RespDeserializeError::WrongFormat),
        }
    }
}

/// Reads the `n` values that start at `pos`.
fn parse_items_at(s: &[u8], pos: usize, n: u64) -> (r: Result<
    (Vec<Resp>, usize),
    RespDeserializeError,
>)
    requires
        pos <= s.len(),
    ensures
        match r {
            Ok((items, next)) => pos <= next <= s.len() && parse_items(
                s@.skip(pos as int),
                n as nat,
                Seq::empty(),
            ) == done(views_of(items@), next - pos),
            Err(e) => parse_items(s@.skip(pos as int), n as nat, Seq::empty()) == failed::<
                Seq<RespView>,
            >(e),
        },
    decreases s.len() - pos, 1nat,
{
    let mut items: Vec<Resp> = Vec::new();
    let mut p: usize = pos;
    let mut k: u64 = 0;
    assert(views_of(items@) =~= Seq::<RespView>::empty());
    while k < n
        invariant
            pos <= p <= s.len(),
            k <= n,
            parse_items(s@.skip(pos as int), n as nat, Seq::empty()) == shift(
                parse_items(
                    s@.skip(p as int),
                    (n - k) as nat,
                    views_of(items@),
                ),
                p - pos,
            ),
        decreases n - k,
    {
        proof {
            reveal(parse_items);
            reveal(parse_value);
        }
        match parse_at(s, p) {
            Err(e) => {
                return Err(e);
            },
            Ok((v, next)) => {
                proof {
                    assert(s@.skip(p as int).skip(next - p) =~= s@.skip(next as int));
                    assert(views_of(items@).push(v@) =~= views_of(items@.push(v)));
                }
                items.push(v);
                p = next;
                k = k + 1;
            },
        }
    }
    proof {
        reveal(parse_items);
        reveal(parse_value);
    }
    Ok((items, p))
}

/// Reads the `n` entries that start at `pos`.
fn parse_entries_at(s: &[u8], pos: usize, n: u64) -> (r: Result<
    (RespMap, usize),
    RespDeserializeError,
>)
    requires
        pos <= s.len(),
    ensures
        match r {
            Ok((m, next)) => pos <= next <= s.len() && m.wf() && parse_entries(
                s@.skip(pos as int),
                n as nat,
                Seq::empty(),
            ) == done(m@, next - pos),
            Err(e) => parse_entries(s@.skip(pos as int), n as nat, Seq::empty()) == failed::<
                Seq<(KeyView, RespView)>,
            >(e),
        },
    decreases s.len() - pos, 1nat,
{
    let mut m = RespMap::new();
    let mut p: usize = pos;
    let mut k: u64 = 0;
    while k < n
        invariant
            pos <= p <= s.len(),
            k <= n,
            m.wf(),
            parse_entries(s@.skip(pos as int), n as nat, Seq::empty()) == shift(
                parse_entries(s@.skip(p as int), (n - k) as nat, m@),
                p - pos,
            ),
        decreases n - k,
    {
        proof {
            reveal(parse_entries);
            reveal(parse_value);
        }
        let (kv, mid) = match parse_at(s, p) {
            Err(e) => {
                return Err(e);
            },
            Ok(x) => x,
        };
        let key = match Key::try_from(kv) {
            Ok(x) => x,
            Err(_) => {
                return Err(RespDeserializeError::WrongFormat);
            },
        };
        proof {
            assert(s@.skip(p as int).skip(mid - p) =~= s@.skip(mid as int));
        }
        let (v, next) = match parse_at(s, mid) {
            Err(e) => {
                return Err(e);
            },
            Ok(x) => x,
        };
        proof {
            assert(s@.skip(p as int).skip(next - p) =~= s@.skip(next as int));
        }
        m.insert(key, v);
        p = next;
        k = k + 1;
    }
    proof {
        reveal(parse_entries);
        reveal(parse_value);
    }
    Ok((m, p))
}

/// Reads the `n` keys that start at `pos`.
fn parse_members_at(s: &[u8], pos: usize, n: u64) -> (r: Result<
    (RespSet, usize),
    RespDeserializeError,
>)
    requires
        pos <= s.len(),
    ensures
        match r {
            Ok((m, next)) => pos <= next <= s.len() && m.wf() && parse_members(
                s@.skip(pos as int),
                n as nat,
                Seq::empty(),
            ) == done(m@, next - pos),
            Err(e) => parse_members(s@.skip(pos as int), n as nat, Seq::empty()) == failed::<
                Seq<KeyView>,
            >(e),
        },
    decreases s.len() - pos, 1nat,
{
    let mut m = RespSet::new();
    let mut p: usize = pos;
    let mut k: u64 = 0;
    while k < n
        invariant
            pos <= p <= s.len(),
            k <= n,
            m.wf(),
            parse_members(s@.skip(pos as int), n as nat, Seq::empty()) == shift(
                parse_members(s@.skip(p as int), (n - k) as nat, m@),
                p - pos,
            ),
        decreases n - k,
    {
        proof {
            reveal(parse_members);
            reveal(parse_value);
        }
        let (kv, next) = match parse_at(s, p) {
            Err(e) => {
                return Err(e);
            },
            Ok(x) => x,
        };
        let key = match Key::try_from(kv) {
            Ok(x) => x,
            Err(_) => {
                return Err(RespDeserializeError::WrongFormat);
            },
        };
        proof {
            assert(s@.skip(p as int).skip(next - p) =~= s@.skip(next as int));
        }
        m.insert(key);
        p = next;
        k = k + 1;
    }
    proof {
        reveal(parse_members);
        reveal(parse_value);
    }
    Ok((m, p))
}

/// `bytes::BytesMut`, a growable buffer of bytes, taken as it is: what it
/// holds is known through [`buffer_bytes`] only.
#[verifier::external_type_specification]
#[verifier::external_body]
pub struct ExBytesMut(BytesMut);

/// The bytes that a buffer holds, first to last.
pub uninterp spec fn buffer_bytes(buf: BytesMut) -> Seq<u8>;

/// `BytesMut::as_ref`: the bytes that the buffer holds, as a slice.
#[verifier::external_body]
pub(crate) fn buffer_slice(buf: &BytesMut) -> (s: &[u8])
    ensures
        s@ == buffer_bytes(*buf),
{
    buf.as_ref()
}

/// `Buf::advance` on a `BytesMut`: drops the first `n` bytes of the buffer
/// and keeps the rest. It panics where the buffer holds fewer than `n`.
#[verifier::external_body]
pub(crate) fn buffer_advance(buf: &mut BytesMut, n: usize)
    requires
        n <= buffer_bytes(*old(buf)).len(),
    ensures
        buffer_bytes(*final(buf)) == buffer_bytes(*old(buf)).skip(n as int),
{
    buf.advance(n)
}

/// `BytesMut::extend_from_slice`: appends `bytes` to the buffer. It panics
/// where the new length is more than memory can hold, which `isize::MAX`
/// bounds.
#[verifier::external_body]
pub(crate) fn buffer_extend(buf: &mut BytesMut, bytes: &[u8])
    requires
        buffer_bytes(*old(buf)).len() + bytes@.len() <= isize::MAX,
    ensures
        buffer_bytes(*final(buf)) == buffer_bytes(*old(buf)) + bytes@,
{
    buf.extend_from_slice(bytes)
}

/// The conversion takes bytes out of the buffer, so its contract stands on
/// `try_from` itself.
impl vstd::std_specs::convert::TryFromSpecImpl<&mut BytesMut> for Resp {
    open spec fn obeys_try_from_spec() -> bool {
        false
    }

    open spec fn try_from_spec(buf: &mut BytesMut) -> Result<Self, RespDeserializeError> {
        Err(RespDeserializeError::NotComplete)
    }
}

impl TryFrom<&mut BytesMut> for Resp {
    type Error = RespDeserializeError;

    /// Reads the value that the bytes of `buf` stand for, and takes those
    /// bytes out of `buf`. Where they stand for none, `buf` is left as it
    /// was: bytes that are not complete wait there for the rest.
    fn try_from(buf: &mut BytesMut) -> (r: Result<Resp, RespDeserializeError>)
        ensures
            match r {
                Ok(v) => decoded(buffer_bytes(*old(buf))) == Ok::<RespView, RespDeserializeError>(
                    v@,
                ) && in_key_order(v@) && buffer_bytes(*final(buf)) == Seq::<u8>::empty(),
                Err(e) => decoded(buffer_bytes(*old(buf))) == Err::<
                    RespView,
                    RespDeserializeError,
                >(e) && buffer_bytes(*final(buf)) == buffer_bytes(*old(buf)),
            },
    {
        let r = decode(buffer_slice(buf));
        if r.is_ok() {
            let n = buffer_slice(buf).len();
            buffer_advance(buf, n);
            assert(buffer_bytes(*buf) =~= Seq::<u8>::empty());
        }
        r
    }
}

/// Reads the value that `bytes` stand for. The value must take all of
/// them: bytes left over break the grammar.
pub fn decode(bytes: &[u8]) -> (r: Result<Resp, RespDeserializeError>)
    ensures
        match r {
            Ok(v) => decoded(bytes@) == Ok::<RespView, RespDeserializeError>(v@) && in_key_order(
                v@,
            ),
            Err(e) => decoded(bytes@) == Err::<RespView, RespDeserializeError>(e),
        },
{
    assert(bytes@.skip(0) =~= bytes@);
    proof {
        lemma_decoded_in_key_order(bytes@);
    }
    match parse_at(bytes, 0) {
        Ok((v, next)) => {
            if next == bytes.len() {
                Ok(v)
            } else {
                Err(RespDeserializeError::WrongFormat)
            }
        },
        Err(e) => Err(e),
    }
}

} // verus!
