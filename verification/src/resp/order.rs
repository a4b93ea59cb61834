//! The canonical order of keys: first by the kind of key, then by what it
//! holds. Text is ordered as its UTF-8 bytes are, byte by byte.
use super::KeyView;
use vstd::prelude::*;
use vstd::utf8::*;

verus! {

/// `a` comes before `b` byte by byte; a proper prefix comes first.
pub open spec fn bytes_lt(a: Seq<u8>, b: Seq<u8>) -> bool
    decreases a.len(),
{
    if b.len() == 0 {
        false
    } else if a.len() == 0 {
        true
    } else if a[0] != b[0] {
        a[0] < b[0]
    } else {
        bytes_lt(a.drop_first(), b.drop_first())
    }
}

/// The text `a` comes before the text `b`.
pub open spec fn text_lt(a: Seq<char>, b: Seq<char>) -> bool {
    bytes_lt(encode_utf8(a), encode_utf8(b))
}

/// The place of a key's kind among the kinds.
pub open spec fn key_tag(k: KeyView) -> int {
    match k {
        KeyView::SimpleString(_) => 0,
        KeyView::SimpleError(_) => 1,
        KeyView::Integer(_) => 2,
        KeyView::BulkString(_, _) => 3,
        KeyView::BulkError(_) => 4,
        KeyView::Null => 5,
        KeyView::Boolean(_) => 6,
    }
}

/// The key `a` comes before the key `b` in the canonical order.
pub open spec fn key_lt(a: KeyView, b: KeyView) -> bool {
    if key_tag(a) != key_tag(b) {
        key_tag(a) < key_tag(b)
    } else {
        match (a, b) {
            (KeyView::SimpleString(x), KeyView::SimpleString(y)) => text_lt(x, y),
            (KeyView::SimpleError(x), KeyView::SimpleError(y)) => text_lt(x, y),
            (KeyView::Integer(x), KeyView::Integer(y)) => x < y,
            (KeyView::BulkString(x, xn), KeyView::BulkString(y, yn)) => text_lt(x, y) || (x == y
                && !xn && yn),
            (KeyView::BulkError(x), KeyView::BulkError(y)) => text_lt(x, y),
            (KeyView::Boolean(x), KeyView::Boolean(y)) => !x && y,
            _ => false,
        }
    }
}

/// No byte string comes before itself.
pub proof fn lemma_bytes_lt_irreflexive(a: Seq<u8>)
    ensures
        !bytes_lt(a, a),
    decreases a.len(),
{
    if a.len() > 0 {
        lemma_bytes_lt_irreflexive(a.drop_first());
    }
}

/// The order of byte strings is transitive.
pub proof fn lemma_bytes_lt_transitive(a: Seq<u8>, b: Seq<u8>, c: Seq<u8>)
    requires
        bytes_lt(a, b),
        bytes_lt(b, c),
    ensures
        bytes_lt(a, c),
    decreases a.len(),
{
    if a.len() > 0 && a[0] == b[0] && b[0] == c[0] {
        lemma_bytes_lt_transitive(a.drop_first(), b.drop_first(), c.drop_first());
    }
}

/// Of two byte strings one comes first, or they are equal.
pub proof fn lemma_bytes_lt_total(a: Seq<u8>, b: Seq<u8>)
    ensures
        bytes_lt(a, b) || a == b || bytes_lt(b, a),
    decreases a.len(),
{
    if a.len() == 0 || b.len() == 0 {
        if a.len() == 0 && b.len() == 0 {
            assert(a =~= b);
        }
    } else if a[0] == b[0] {
        lemma_bytes_lt_total(a.drop_first(), b.drop_first());
        if a.drop_first() == b.drop_first() {
            assert(a =~= seq![a[0]] + a.drop_first());
            assert(b =~= seq![b[0]] + b.drop_first());
        }
    }
}

/// No text comes before itself.
pub proof fn lemma_text_lt_irreflexive(a: Seq<char>)
    ensures
        !text_lt(a, a),
{
    lemma_bytes_lt_irreflexive(encode_utf8(a));
}

/// The order of texts is transitive.
pub proof fn lemma_text_lt_transitive(a: Seq<char>, b: Seq<char>, c: Seq<char>)
    requires
        text_lt(a, b),
        text_lt(b, c),
    ensures
        text_lt(a, c),
{
    lemma_bytes_lt_transitive(encode_utf8(a), encode_utf8(b), encode_utf8(c));
}

/// Of two texts one comes first, or they are equal.
pub proof fn lemma_text_lt_total(a: Seq<char>, b: Seq<char>)
    ensures
        text_lt(a, b) || a == b || text_lt(b, a),
{
    lemma_bytes_lt_total(encode_utf8(a), encode_utf8(b));
    if encode_utf8(a) == encode_utf8(b) {
        encode_utf8_decode_utf8(a);
        encode_utf8_decode_utf8(b);
    }
}

/// No key comes before itself.
pub proof fn lemma_key_lt_irreflexive(a: KeyView)
    ensures
        !key_lt(a, a),
{
    match a {
        KeyView::SimpleString(x) => lemma_text_lt_irreflexive(x),
        KeyView::SimpleError(x) => lemma_text_lt_irreflexive(x),
        KeyView::BulkString(x, _) => lemma_text_lt_irreflexive(x),
        KeyView::BulkError(x) => lemma_text_lt_irreflexive(x),
        _ => {},
    }
}

/// The canonical order of keys is transitive.
pub proof fn lemma_key_lt_transitive(a: KeyView, b: KeyView, c: KeyView)
    requires
        key_lt(a, b),
        key_lt(b, c),
    ensures
        key_lt(a, c),
{
    if key_tag(a) == key_tag(b) && key_tag(b) == key_tag(c) {
        match (a, b, c) {
            (KeyView::SimpleString(x), KeyView::SimpleString(y), KeyView::SimpleString(z)) => {
                lemma_text_lt_transitive(x, y, z);
            },
            (KeyView::SimpleError(x), KeyView::SimpleError(y), KeyView::SimpleError(z)) => {
                lemma_text_lt_transitive(x, y, z);
            },
            (KeyView::BulkError(x), KeyView::BulkError(y), KeyView::BulkError(z)) => {
                lemma_text_lt_transitive(x, y, z);
            },
            (KeyView::BulkString(x, _), KeyView::BulkString(y, _), KeyView::BulkString(z, _)) => {
                if text_lt(x, y) && text_lt(y, z) {
                    lemma_text_lt_transitive(x, y, z);
                }
            },
            _ => {},
        }
    }
}

/// Of two keys one comes first, or they are equal.
pub proof fn lemma_key_lt_total(a: KeyView, b: KeyView)
    ensures
        key_lt(a, b) || a == b || key_lt(b, a),
{
    match (a, b) {
        (KeyView::SimpleString(x), KeyView::SimpleString(y)) => lemma_text_lt_total(x, y),
        (KeyView::SimpleError(x), KeyView::SimpleError(y)) => lemma_text_lt_total(x, y),
        (KeyView::BulkError(x), KeyView::BulkError(y)) => lemma_text_lt_total(x, y),
        (KeyView::BulkString(x, _), KeyView::BulkString(y, _)) => lemma_text_lt_total(x, y),
        _ => {},
    }
}

/// Whether `a` comes before `b` byte by byte.
pub fn slice_lt(a: &[u8], b: &[u8]) -> (r: bool)
    ensures
        r == bytes_lt(a@, b@),
{
    let mut i: usize = 0;
    assert(a@.skip(0) =~= a@ && b@.skip(0) =~= b@);
    loop
        invariant
            i <= a.len(),
            i <= b.len(),
            bytes_lt(a@, b@) == bytes_lt(a@.skip(i as int), b@.skip(i as int)),
        decreases a.len() - i,
    {
        if i == b.len() {
            return false;
        }
        if i == a.len() {
            return true;
        }
        if a[i] != b[i] {
            return a[i] < b[i];
        }
        assert(a@.skip(i as int).drop_first() =~= a@.skip(i + 1));
        assert(b@.skip(i as int).drop_first() =~= b@.skip(i + 1));
        i = i + 1;
    }
}

/// Whether the text `a` comes before the text `b`.
pub fn str_lt(a: &str, b: &str) -> (r: bool)
    ensures
        r == text_lt(a@, b@),
{
    slice_lt(a.as_bytes(), b.as_bytes())
}

/// Whether the texts `a` and `b` are the same.
pub fn str_eq(a: &str, b: &str) -> (r: bool)
    ensures
        r == (a@ == b@),
{
    let x = a.as_bytes();
    let y = b.as_bytes();
    proof {
        encode_utf8_decode_utf8(a@);
        encode_utf8_decode_utf8(b@);
    }
    if x.len() != y.len() {
        return false;
    }
    let mut i: usize = 0;
    while i < x.len()
        invariant
            i <= x.len(),
            x.len() == y.len(),
            x@ == encode_utf8(a@),
            y@ == encode_utf8(b@),
            forall|j: int| 0 <= j < i ==> x@[j] == y@[j],
        decreases x.len() - i,
    {
        if x[i] != y[i] {
            return false;
        }
        i = i + 1;
    }
    assert(x@ =~= y@);
    true
}

} // verus!
