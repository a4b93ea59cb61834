//! The encoder: the bytes that stand for a value on the wire.
use super::decimal::{digits_of, numeral, push_i64, push_u64};
use super::{
    Array, Boolean, BulkError, BulkString, Double, Integer, Key, KeyView, Null, Resp, RespMap,
    RespSet, RespView, SimpleError, SimpleString,
};
use vstd::prelude::*;
use vstd::utf8::encode_utf8;

verus! {

pub const CR: u8 = 13;

pub const LF: u8 = 10;

pub const TAG_SIMPLE_STRING: u8 = 43;

pub const TAG_SIMPLE_ERROR: u8 = 45;

pub const TAG_INTEGER: u8 = 58;

pub const TAG_BULK_STRING: u8 = 36;

pub const TAG_ARRAY: u8 = 42;

pub const TAG_NULL: u8 = 95;

pub const TAG_BOOLEAN: u8 = 35;

pub const TAG_DOUBLE: u8 = 44;

pub const TAG_BULK_ERROR: u8 = 33;

pub const TAG_MAP: u8 = 37;

pub const TAG_SET: u8 = 126;

/// The byte that stands for a truth value: `t` or `f`.
pub open spec fn truth_byte(b: bool) -> u8 {
    if b {
        116
    } else {
        102
    }
}

/// A tag, a body and a line end.
pub open spec fn line(tag: u8, body: Seq<u8>) -> Seq<u8> {
    seq![tag] + body + seq![CR, LF]
}

/// A tag and the length of the body on a line, then the body and a line
/// end.
pub open spec fn bulk(tag: u8, body: Seq<u8>) -> Seq<u8> {
    line(tag, digits_of(body.len())) + body + seq![CR, LF]
}

/// The bytes that stand for a key on the wire.
pub open spec fn encode_key(k: KeyView) -> Seq<u8> {
    match k {
        KeyView::SimpleString(s) => line(TAG_SIMPLE_STRING, encode_utf8(s)),
        KeyView::SimpleError(s) => line(TAG_SIMPLE_ERROR, encode_utf8(s)),
        KeyView::Integer(i) => line(TAG_INTEGER, numeral(i)),
        KeyView::BulkString(s, null) => if null {
            line(TAG_BULK_STRING, numeral(-1))
        } else {
            bulk(TAG_BULK_STRING, encode_utf8(s))
        },
        KeyView::BulkError(s) => bulk(TAG_BULK_ERROR, encode_utf8(s)),
        KeyView::Null => line(TAG_NULL, Seq::empty()),
        KeyView::Boolean(b) => line(TAG_BOOLEAN, seq![truth_byte(b)]),
    }
}

/// The bytes that stand for the keys `s`, one after the other.
pub open spec fn encode_members(s: Seq<KeyView>) -> Seq<u8>
    decreases s.len(),
{
    if s.len() == 0 {
        Seq::empty()
    } else {
        encode_members(s.drop_last()) + encode_key(s.last())
    }
}

/// The bytes that stand for a value on the wire. A null bulk string and a
/// null array are written with the length -1 and nothing behind it.
pub open spec fn encode(v: RespView) -> Seq<u8>
    decreases v,
{
    match v {
        RespView::SimpleString(s) => line(TAG_SIMPLE_STRING, encode_utf8(s)),
        RespView::SimpleError(s) => line(TAG_SIMPLE_ERROR, encode_utf8(s)),
        RespView::Integer(i) => line(TAG_INTEGER, numeral(i)),
        RespView::BulkString(s, null) => if null {
            line(TAG_BULK_STRING, numeral(-1))
        } else {
            bulk(TAG_BULK_STRING, encode_utf8(s))
        },
        RespView::Array(items, null) => if null {
            line(TAG_ARRAY, numeral(-1))
        } else {
            line(TAG_ARRAY, digits_of(items.len())) + encode_all(items)
        },
        RespView::Null => line(TAG_NULL, Seq::empty()),
        RespView::Boolean(b) => line(TAG_BOOLEAN, seq![truth_byte(b)]),
        RespView::Double(t) => line(TAG_DOUBLE, encode_utf8(t)),
        RespView::BulkError(s) => bulk(TAG_BULK_ERROR, encode_utf8(s)),
        RespView::RespMap(m) => line(TAG_MAP, digits_of(m.len())) + encode_entries(m),
        RespView::RespSet(s) => line(TAG_SET, digits_of(s.len())) + encode_members(s),
    }
}

/// The bytes that stand for the values `items`, one after the other.
pub open spec fn encode_all(items: Seq<RespView>) -> Seq<u8>
    decreases items,
{
    if items.len() == 0 {
        Seq::empty()
    } else {
        encode_all(items.drop_last()) + encode(items.last())
    }
}

/// The bytes that stand for the entries `m`: each key, then its value.
pub open spec fn encode_entries(m: Seq<(KeyView, RespView)>) -> Seq<u8>
    decreases m,
{
    if m.len() == 0 {
        Seq::empty()
    } else {
        encode_entries(m.drop_last()) + encode_key(m.last().0) + encode(m.last().1)
    }
}

/// Turns a value into the bytes that stand for it on the wire.
pub trait Serialize {
    /// The bytes that stand for this value on the wire.
    spec fn wire(&self) -> Seq<u8>;

    fn serialize(&self) -> (r: Vec<u8>)
        ensures
            r@ == self.wire(),
    ;
}

fn put_bytes(out: &mut Vec<u8>, bytes: &[u8])
    ensures
        final(out)@ == old(out)@ + bytes@,
{
    let mut i: usize = 0;
    while i < bytes.len()
        invariant
            i <= bytes.len(),
            out@ == old(out)@ + bytes@.subrange(0, i as int),
        decreases bytes.len() - i,
    {
        out.push(bytes[i]);
        assert(bytes@.subrange(0, i + 1) =~= bytes@.subrange(0, i as int).push(bytes@[i as int]));
        i = i + 1;
    }
    assert(bytes@.subrange(0, i as int) =~= bytes@);
}

fn put_line(out: &mut Vec<u8>, tag: u8, body: &[u8])
    ensures
        final(out)@ == old(out)@ + line(tag, body@),
{
    out.push(tag);
    put_bytes(out, body);
    out.push(CR);
    out.push(LF);
    assert(out@ =~= old(out)@ + line(tag, body@));
}

fn put_count(out: &mut Vec<u8>, tag: u8, n: usize)
    ensures
        final(out)@ == old(out)@ + line(tag, digits_of(n as nat)),
{
    out.push(tag);
    push_u64(out, n as u64);
    out.push(CR);
    out.push(LF);
    assert(out@ =~= old(out)@ + line(tag, digits_of(n as nat)));
}

fn put_null_mark(out: &mut Vec<u8>, tag: u8)
    ensures
        final(out)@ == old(out)@ + line(tag, numeral(-1)),
{
    out.push(tag);
    push_i64(out, -1);
    out.push(CR);
    out.push(LF);
    assert(out@ =~= old(out)@ + line(tag, numeral(-1)));
}

fn put_bulk(out: &mut Vec<u8>, tag: u8, body: &[u8])
    ensures
        final(out)@ == old(out)@ + bulk(tag, body@),
{
    put_count(out, tag, body.len());
    put_bytes(out, body);
    out.push(CR);
    out.push(LF);
    assert(out@ =~= old(out)@ + bulk(tag, body@));
}

fn put_integer(out: &mut Vec<u8>, v: i64)
    ensures
        final(out)@ == old(out)@ + line(TAG_INTEGER, numeral(v as int)),
{
    out.push(TAG_INTEGER);
    push_i64(out, v);
    out.push(CR);
    out.push(LF);
    assert(out@ =~= old(out)@ + line(TAG_INTEGER, numeral(v as int)));
}

fn put_boolean(out: &mut Vec<u8>, b: bool)
    ensures
        final(out)@ == old(out)@ + line(TAG_BOOLEAN, seq![truth_byte(b)]),
{
    out.push(TAG_BOOLEAN);
    out.push(
        if b {
            116
        } else {
            102
        },
    );
    out.push(CR);
    out.push(LF);
    assert(out@ =~= old(out)@ + line(TAG_BOOLEAN, seq![truth_byte(b)]));
}

fn put_bulk_string(out: &mut Vec<u8>, s: &BulkString)
    ensures
        final(out)@ == old(out)@ + encode(RespView::BulkString(s.value@, s.is_null)),
{
    if s.is_null {
        put_null_mark(out, TAG_BULK_STRING);
    } else {
        put_bulk(out, TAG_BULK_STRING, s.value.as_str().as_bytes());
    }
}

fn put_key(out: &mut Vec<u8>, k: &Key)
    ensures
        final(out)@ == old(out)@ + encode_key(k@),
{
    match k {
        Key::SimpleString(s) => put_line(out, TAG_SIMPLE_STRING, s.as_str().as_bytes()),
        Key::SimpleError(s) => put_line(out, TAG_SIMPLE_ERROR, s.as_str().as_bytes()),
        Key::Integer(i) => put_integer(out, i.get()),
        Key::BulkString(s) => put_bulk_string(out, s),
        Key::BulkError(s) => put_bulk(out, TAG_BULK_ERROR, s.as_str().as_bytes()),
        Key::Null(_) => {
            let body: [u8; 0] = [];
            put_line(out, TAG_NULL, body.as_slice());
            assert(body@ =~= Seq::<u8>::empty());
        },
        Key::Boolean(b) => put_boolean(out, b.get()),
    }
}

fn put_members(out: &mut Vec<u8>, s: &RespSet)
    ensures
        final(out)@ == old(out)@ + line(TAG_SET, digits_of(s@.len())) + encode_members(s@),
{
    put_count(out, TAG_SET, s.len());
    let ghost head = out@;
    let mut i: usize = 0;
    assert(s@.take(0) =~= Seq::<KeyView>::empty());
    while i < s.len()
        invariant
            i <= s@.len(),
            out@ == head + encode_members(s@.take(i as int)),
        decreases s@.len() - i,
    {
        put_key(out, s.get(i));
        assert(s@.take(i + 1).drop_last() =~= s@.take(i as int));
        assert(out@ =~= head + encode_members(s@.take(i + 1)));
        i = i + 1;
    }
    assert(s@.take(i as int) =~= s@);
}

fn put_resp(out: &mut Vec<u8>, v: &Resp)
    ensures
        final(out)@ == old(out)@ + encode(v@),
    decreases v@,
{
    match v {
        Resp::SimpleString(s) => put_line(out, TAG_SIMPLE_STRING, s.as_str().as_bytes()),
        Resp::SimpleError(s) => put_line(out, TAG_SIMPLE_ERROR, s.as_str().as_bytes()),
        Resp::Integer(i) => put_integer(out, i.get()),
        Resp::BulkString(s) => put_bulk_string(out, s),
        Resp::Array(a) => {
            assert(v@ == RespView::Array(a@, a.null()));
            assert(decreases_to!(v@ => v@->Array_0));
            put_array(out, a)
        },
        Resp::Null(_) => {
            let body: [u8; 0] = [];
            put_line(out, TAG_NULL, body.as_slice());
            assert(body@ =~= Seq::<u8>::empty());
        },
        Resp::Boolean(b) => put_boolean(out, b.get()),
        Resp::Double(d) => put_line(out, TAG_DOUBLE, d.as_str().as_bytes()),
        Resp::BulkError(s) => put_bulk(out, TAG_BULK_ERROR, s.as_str().as_bytes()),
        Resp::RespMap(m) => {
            let entries: &RespMap = m;
            assert(v@ == RespView::RespMap(entries@));
            assert(decreases_to!(v@ => v@->RespMap_0));
            put_entries(out, entries)
        },
        Resp::RespSet(s) => put_members(out, s),
    }
}

fn put_array(out: &mut Vec<u8>, a: &Array)
    ensures
        final(out)@ == old(out)@ + encode(RespView::Array(a@, a.null())),
    decreases a@,
{
    if a.is_null() {
        put_null_mark(out, TAG_ARRAY);
        return ;
    }
    put_count(out, TAG_ARRAY, a.len());
    let ghost head = out@;
    let mut i: usize = 0;
    assert(a@.take(0) =~= Seq::<RespView>::empty());
    while i < a.len()
        invariant
            i <= a@.len(),
            out@ == head + encode_all(a@.take(i as int)),
        decreases a@.len() - i,
    {
        put_resp(out, a.get(i));
        assert(a@.take(i + 1).drop_last() =~= a@.take(i as int));
        assert(out@ =~= head + encode_all(a@.take(i + 1)));
        i = i + 1;
    }
    assert(a@.take(i as int) =~= a@);
}

fn put_entries(out: &mut Vec<u8>, m: &RespMap)
    ensures
        final(out)@ == old(out)@ + encode(RespView::RespMap(m@)),
    decreases m@,
{
    put_count(out, TAG_MAP, m.len());
    let ghost head = out@;
    let mut i: usize = 0;
    assert(m@.take(0) =~= Seq::<(KeyView, RespView)>::empty());
    while i < m.len()
        invariant
            i <= m@.len(),
            out@ == head + encode_entries(m@.take(i as int)),
        decreases m@.len() - i,
    {
        put_key(out, m.key_at(i));
        put_resp(out, m.value_at(i));
        assert(m@.take(i + 1).drop_last() =~= m@.take(i as int));
        assert(out@ =~= head + encode_entries(m@.take(i + 1)));
        i = i + 1;
    }
    assert(m@.take(i as int) =~= m@);
}

impl Serialize for Key {
    open spec fn wire(&self) -> Seq<u8> {
        encode_key(self@)
    }

    fn serialize(&self) -> (r: Vec<u8>) {
        let mut out: Vec<u8> = Vec::new();
        put_key(&mut out, self);
        assert(out@ =~= encode_key(self@));
        out
    }
}

impl Serialize for Resp {
    open spec fn wire(&self) -> Seq<u8> {
        encode(self@)
    }

    fn serialize(&self) -> (r: Vec<u8>) {
        let mut out: Vec<u8> = Vec::new();
        put_resp(&mut out, self);
        assert(out@ =~= encode(self@));
        out
    }
}

impl Serialize for SimpleString {
    open spec fn wire(&self) -> Seq<u8> {
        line(TAG_SIMPLE_STRING, encode_utf8(self@))
    }

    fn serialize(&self) -> (r: Vec<u8>) {
        let mut out: Vec<u8> = Vec::new();
        put_line(&mut out, TAG_SIMPLE_STRING, self.as_str().as_bytes());
        assert(out@ =~= self.wire());
        out
    }
}

impl Serialize for SimpleError {
    open spec fn wire(&self) -> Seq<u8> {
        line(TAG_SIMPLE_ERROR, encode_utf8(self@))
    }

    fn serialize(&self) -> (r: Vec<u8>) {
        let mut out: Vec<u8> = Vec::new();
        put_line(&mut out, TAG_SIMPLE_ERROR, self.as_str().as_bytes());
        assert(out@ =~= self.wire());
        out
    }
}

impl Serialize for Integer {
    open spec fn wire(&self) -> Seq<u8> {
        line(TAG_INTEGER, numeral(self@))
    }

    fn serialize(&self) -> (r: Vec<u8>) {
        let mut out: Vec<u8> = Vec::new();
        put_integer(&mut out, self.get());
        assert(out@ =~= self.wire());
        out
    }
}

impl Serialize for BulkString {
    open spec fn wire(&self) -> Seq<u8> {
        encode(RespView::BulkString(self.value@, self.is_null))
    }

    fn serialize(&self) -> (r: Vec<u8>) {
        let mut out: Vec<u8> = Vec::new();
        put_bulk_string(&mut out, self);
        assert(out@ =~= self.wire());
        out
    }
}

impl Serialize for Null {
    open spec fn wire(&self) -> Seq<u8> {
        line(TAG_NULL, Seq::empty())
    }

    fn serialize(&self) -> (r: Vec<u8>) {
        let mut out: Vec<u8> = Vec::new();
        out.push(TAG_NULL);
        out.push(CR);
        out.push(LF);
        assert(out@ =~= self.wire());
        out
    }
}

impl Serialize for Boolean {
    open spec fn wire(&self) -> Seq<u8> {
        line(TAG_BOOLEAN, seq![truth_byte(self@)])
    }

    fn serialize(&self) -> (r: Vec<u8>) {
        let mut out: Vec<u8> = Vec::new();
        put_boolean(&mut out, self.get());
        assert(out@ =~= self.wire());
        out
    }
}

impl Serialize for Double {
    open spec fn wire(&self) -> Seq<u8> {
        line(TAG_DOUBLE, encode_utf8(self@))
    }

    fn serialize(&self) -> (r: Vec<u8>) {
        let mut out: Vec<u8> = Vec::new();
        put_line(&mut out, TAG_DOUBLE, self.as_str().as_bytes());
        assert(out@ =~= self.wire());
        out
    }
}

impl Serialize for BulkError {
    open spec fn wire(&self) -> Seq<u8> {
        bulk(TAG_BULK_ERROR, encode_utf8(self@))
    }

    fn serialize(&self) -> (r: Vec<u8>) {
        let mut out: Vec<u8> = Vec::new();
        put_bulk(&mut out, TAG_BULK_ERROR, self.as_str().as_bytes());
        assert(out@ =~= self.wire());
        out
    }
}

impl Serialize for Array {
    open spec fn wire(&self) -> Seq<u8> {
        encode(RespView::Array(self@, self.null()))
    }

    fn serialize(&self) -> (r: Vec<u8>) {
        let mut out: Vec<u8> = Vec::new();
        put_array(&mut out, self);
        assert(out@ =~= self.wire());
        out
    }
}

impl Serialize for RespMap {
    open spec fn wire(&self) -> Seq<u8> {
        encode(RespView::RespMap(self@))
    }

    fn serialize(&self) -> (r: Vec<u8>) {
        let mut out: Vec<u8> = Vec::new();
        put_entries(&mut out, self);
        assert(out@ =~= self.wire());
        out
    }
}

impl Serialize for RespSet {
    open spec fn wire(&self) -> Seq<u8> {
        encode(RespView::RespSet(self@))
    }

    fn serialize(&self) -> (r: Vec<u8>) {
        let mut out: Vec<u8> = Vec::new();
        put_members(&mut out, self);
        assert(out@ =~= self.wire());
        out
    }
}

} // verus!
