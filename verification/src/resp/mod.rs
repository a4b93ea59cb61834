//! The value model: one type per wire type, the sum type [`Resp`] of all of
//! them and the restricted sum type [`Key`] of those usable as a key.
pub mod canonical;
pub mod composite;
pub mod decimal;
pub mod deserialize;
pub mod double;
pub mod laws;
pub mod order;
pub mod serialize;

pub use self::composite::{Array, Resp, RespMap, RespSet};
pub use self::deserialize::RespDeserializeError;
pub use self::serialize::Serialize;

use self::double::{check_double_text, is_double_text};
use self::order::{key_lt, str_eq, str_lt};
use vstd::prelude::*;
use vstd::utf8::encode_utf8;

verus! {

/// Mathematical model of a [`Key`].
pub enum KeyView {
    SimpleString(Seq<char>),
    SimpleError(Seq<char>),
    Integer(int),
    BulkString(Seq<char>, bool),
    BulkError(Seq<char>),
    Null,
    Boolean(bool),
}

/// Mathematical model of a [`Resp`] value. Text is a sequence of characters,
/// a double is the decimal text that denotes it, a map is its entries in key
/// order and a set its members in key order.
pub enum RespView {
    SimpleString(Seq<char>),
    SimpleError(Seq<char>),
    Integer(int),
    BulkString(Seq<char>, bool),
    Array(Seq<RespView>, bool),
    Null,
    Boolean(bool),
    Double(Seq<char>),
    BulkError(Seq<char>),
    RespMap(Seq<(KeyView, RespView)>),
    RespSet(Seq<KeyView>),
}

/// A text that goes over the wire on one line. It comes back as it was
/// written only where it holds no carriage return.
#[derive(Debug, PartialEq, Eq, PartialOrd, Ord, Hash)]
pub struct SimpleString {
    value: String,
}

impl View for SimpleString {
    type V = Seq<char>;

    closed spec fn view(&self) -> Seq<char> {
        self.value@
    }
}

impl SimpleString {
    pub fn new(value: &str) -> (r: Self)
        ensures
            r@ == value@,
    {
        SimpleString { value: value.to_owned() }
    }

    /// The text.
    pub fn as_str(&self) -> (r: &str)
        ensures
            r@ == self@,
    {
        self.value.as_str()
    }
}

impl Clone for SimpleString {
    fn clone(&self) -> (r: Self)
        ensures
            r@ == self@,
    {
        SimpleString { value: self.value.clone() }
    }
}

impl Default for SimpleString {
    fn default() -> (r: Self)
        ensures
            r@ == Seq::<char>::empty(),
    {
        SimpleString { value: String::new() }
    }
}

/// A text that reports an error and goes over the wire on one line. It
/// comes back as it was written only where it holds no carriage return.
#[derive(Debug, PartialEq, Eq, PartialOrd, Ord, Hash)]
pub struct SimpleError {
    value: String,
}

impl View for SimpleError {
    type V = Seq<char>;

    closed spec fn view(&self) -> Seq<char> {
        self.value@
    }
}

impl SimpleError {
    pub fn new(value: &str) -> (r: Self)
        ensures
            r@ == value@,
    {
        SimpleError { value: value.to_owned() }
    }

    /// The text.
    pub fn as_str(&self) -> (r: &str)
        ensures
            r@ == self@,
    {
        self.value.as_str()
    }
}

impl Clone for SimpleError {
    fn clone(&self) -> (r: Self)
        ensures
            r@ == self@,
    {
        SimpleError { value: self.value.clone() }
    }
}

impl Default for SimpleError {
    fn default() -> (r: Self)
        ensures
            r@ == Seq::<char>::empty(),
    {
        SimpleError { value: String::new() }
    }
}

/// A signed 64-bit integer.
#[derive(Debug, Clone, Copy, PartialEq, Eq, PartialOrd, Ord, Hash)]
pub struct Integer {
    value: i64,
}

impl View for Integer {
    type V = int;

    closed spec fn view(&self) -> int {
        self.value as int
    }
}

impl Integer {
    pub fn new(value: i64) -> (r: Self)
        ensures
            r@ == value,
    {
        Integer { value }
    }

    /// The number.
    pub fn get(&self) -> (r: i64)
        ensures
            r == self@,
    {
        self.value
    }
}

impl Default for Integer {
    fn default() -> (r: Self)
        ensures
            r@ == 0,
    {
        Integer { value: 0 }
    }
}

/// A length-prefixed text, or the null bulk string. The null one goes over
/// the wire without its text.
#[derive(Debug, PartialEq, Eq, PartialOrd, Ord, Hash)]
pub struct BulkString {
    pub value: String,
    pub is_null: bool,
}

impl BulkString {
    pub fn new(value: &str, is_null: bool) -> (r: Self)
        ensures
            r.value@ == value@,
            r.is_null == is_null,
    {
        BulkString { value: value.to_owned(), is_null }
    }
}

impl Clone for BulkString {
    fn clone(&self) -> (r: Self)
        ensures
            r.value@ == self.value@,
            r.is_null == self.is_null,
    {
        BulkString { value: self.value.clone(), is_null: self.is_null }
    }
}

impl Default for BulkString {
    fn default() -> (r: Self)
        ensures
            r.value@ == Seq::<char>::empty(),
            !r.is_null,
    {
        BulkString { value: String::new(), is_null: false }
    }
}

/// The null value.
#[derive(Debug, Clone, Copy, PartialEq, Eq, PartialOrd, Ord, Hash)]
pub struct Null;

impl Default for Null {
    fn default() -> (r: Self) {
        Null
    }
}

/// A truth value.
#[derive(Debug, Clone, Copy, PartialEq, Eq, PartialOrd, Ord, Hash)]
pub struct Boolean {
    value: bool,
}

impl View for Boolean {
    type V = bool;

    closed spec fn view(&self) -> bool {
        self.value
    }
}

impl Boolean {
    pub fn new(value: bool) -> (r: Self)
        ensures
            r@ == value,
    {
        Boolean { value }
    }

    /// The truth value.
    pub fn get(&self) -> (r: bool)
        ensures
            r == self@,
    {
        self.value
    }
}

impl Default for Boolean {
    fn default() -> (r: Self)
        ensures
            r@ == false,
    {
        Boolean { value: false }
    }
}

/// A length-prefixed text that reports an error.
#[derive(Debug, PartialEq, Eq, PartialOrd, Ord, Hash)]
pub struct BulkError {
    value: String,
}

impl View for BulkError {
    type V = Seq<char>;

    closed spec fn view(&self) -> Seq<char> {
        self.value@
    }
}

impl BulkError {
    pub fn new(value: &str) -> (r: Self)
        ensures
            r@ == value@,
    {
        BulkError { value: value.to_owned() }
    }

    /// The text.
    pub fn as_str(&self) -> (r: &str)
        ensures
            r@ == self@,
    {
        self.value.as_str()
    }
}

impl Clone for BulkError {
    fn clone(&self) -> (r: Self)
        ensures
            r@ == self@,
    {
        BulkError { value: self.value.clone() }
    }
}

impl Default for BulkError {
    fn default() -> (r: Self)
        ensures
            r@ == Seq::<char>::empty(),
    {
        BulkError { value: String::new() }
    }
}

/// A double, held as the decimal text that denotes it.
#[derive(Debug, PartialEq)]
pub struct Double {
    value: String,
}

impl View for Double {
    type V = Seq<char>;

    closed spec fn view(&self) -> Seq<char> {
        self.value@
    }
}

impl Double {
    /// The double that `text` denotes; nothing where `text` is not the text
    /// of a double.
    pub fn new(text: &str) -> (r: Option<Self>)
        ensures
            r is Some <==> is_double_text(encode_utf8(text@)),
            r matches Some(d) ==> d@ == text@,
    {
        if check_double_text(text.as_bytes()) {
            Some(Double { value: text.to_owned() })
        } else {
            None
        }
    }

    /// The text.
    pub fn as_str(&self) -> (r: &str)
        ensures
            r@ == self@,
    {
        self.value.as_str()
    }
}

impl Clone for Double {
    fn clone(&self) -> (r: Self)
        ensures
            r@ == self@,
    {
        Double { value: self.value.clone() }
    }
}

impl Default for Double {
    fn default() -> (r: Self)
        ensures
            r@ == "0"@,
    {
        Double { value: "0".to_owned() }
    }
}

/// A value that cannot be a key was given where a key is needed.
#[derive(Debug, Clone, Copy, PartialEq, Eq)]
pub struct UnsupportedKey;

/// The values that can be the key of a map or the member of a set.
#[derive(Debug, PartialEq, Eq, PartialOrd, Ord, Hash)]
pub enum Key {
    SimpleString(SimpleString),
    SimpleError(SimpleError),
    Integer(Integer),
    BulkString(BulkString),
    BulkError(BulkError),
    Null(Null),
    Boolean(Boolean),
}

impl View for Key {
    type V = KeyView;

    open spec fn view(&self) -> KeyView {
        match self {
            Key::SimpleString(s) => KeyView::SimpleString(s@),
            Key::SimpleError(s) => KeyView::SimpleError(s@),
            Key::Integer(i) => KeyView::Integer(i@),
            Key::BulkString(s) => KeyView::BulkString(s.value@, s.is_null),
            Key::BulkError(s) => KeyView::BulkError(s@),
            Key::Null(_) => KeyView::Null,
            Key::Boolean(b) => KeyView::Boolean(b@),
        }
    }
}

impl Clone for Key {
    fn clone(&self) -> (r: Self)
        ensures
            r@ == self@,
    {
        match self {
            Key::SimpleString(s) => Key::SimpleString(s.clone()),
            Key::SimpleError(s) => Key::SimpleError(s.clone()),
            Key::Integer(i) => Key::Integer(*i),
            Key::BulkString(s) => Key::BulkString(s.clone()),
            Key::BulkError(s) => Key::BulkError(s.clone()),
            Key::Null(_) => Key::Null(Null),
            Key::Boolean(b) => Key::Boolean(*b),
        }
    }
}

impl Key {
    /// Whether this key comes before `other` in the canonical order.
    pub fn precedes(&self, other: &Key) -> (r: bool)
        ensures
            r == key_lt(self@, other@),
    {
        match (self, other) {
            (Key::SimpleString(x), Key::SimpleString(y)) => str_lt(x.as_str(), y.as_str()),
            (Key::SimpleError(x), Key::SimpleError(y)) => str_lt(x.as_str(), y.as_str()),
            (Key::Integer(x), Key::Integer(y)) => x.get() < y.get(),
            (Key::BulkString(x), Key::BulkString(y)) => {
                if str_lt(x.value.as_str(), y.value.as_str()) {
                    true
                } else {
                    str_eq(x.value.as_str(), y.value.as_str()) && !x.is_null && y.is_null
                }
            },
            (Key::BulkError(x), Key::BulkError(y)) => str_lt(x.as_str(), y.as_str()),
            (Key::Null(_), Key::Null(_)) => false,
            (Key::Boolean(x), Key::Boolean(y)) => !x.get() && y.get(),
            _ => self.tag() < other.tag(),
        }
    }

    /// Whether this key and `other` are the same key.
    pub fn same(&self, other: &Key) -> (r: bool)
        ensures
            r == (self@ == other@),
    {
        match (self, other) {
            (Key::SimpleString(x), Key::SimpleString(y)) => str_eq(x.as_str(), y.as_str()),
            (Key::SimpleError(x), Key::SimpleError(y)) => str_eq(x.as_str(), y.as_str()),
            (Key::Integer(x), Key::Integer(y)) => x.get() == y.get(),
            (Key::BulkString(x), Key::BulkString(y)) => str_eq(x.value.as_str(), y.value.as_str())
                && x.is_null == y.is_null,
            (Key::BulkError(x), Key::BulkError(y)) => str_eq(x.as_str(), y.as_str()),
            (Key::Null(_), Key::Null(_)) => true,
            (Key::Boolean(x), Key::Boolean(y)) => x.get() == y.get(),
            _ => false,
        }
    }

    fn tag(&self) -> (r: u8)
        ensures
            r == order::key_tag(self@),
    {
        match self {
            Key::SimpleString(_) => 0,
            Key::SimpleError(_) => 1,
            Key::Integer(_) => 2,
            Key::BulkString(_) => 3,
            Key::BulkError(_) => 4,
            Key::Null(_) => 5,
            Key::Boolean(_) => 6,
        }
    }
}

} // verus!
