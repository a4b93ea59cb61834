//! The values that hold other values: arrays, maps and sets, and the sum
//! type [`Resp`] of all values. A map keeps its entries, and a set its
//! members, in the canonical order of keys, each key once.
use super::order::{
    key_lt, lemma_key_lt_irreflexive, lemma_key_lt_total, lemma_key_lt_transitive,
};
use super::{
    Boolean, BulkError, BulkString, Double, Integer, Key, KeyView, Null, RespView, SimpleError,
    SimpleString, UnsupportedKey,
};
use vstd::prelude::*;

verus! {

broadcast use vstd::std_specs::vec::axiom_vec_index_decreases;

/// The first place at or after `from` whose key does not come before `k`.
pub open spec fn entry_rank(m: Seq<(KeyView, RespView)>, k: KeyView, from: int) -> int
    decreases m.len() - from,
{
    if 0 <= from < m.len() && key_lt(m[from].0, k) {
        entry_rank(m, k, from + 1)
    } else {
        from
    }
}

/// The entries `m` with `k` bound to `v`: in place of the entry of `k` if
/// there is one, else at the place that the order gives it.
pub open spec fn entries_insert(m: Seq<(KeyView, RespView)>, k: KeyView, v: RespView) -> Seq<
    (KeyView, RespView),
> {
    let i = entry_rank(m, k, 0);
    if i < m.len() && m[i].0 == k {
        m.update(i, (k, v))
    } else {
        m.insert(i, (k, v))
    }
}

/// The keys of `m` stand in the canonical order, each once.
pub open spec fn entries_sorted(m: Seq<(KeyView, RespView)>) -> bool {
    forall|i: int, j: int| 0 <= i < j < m.len() ==> key_lt(#[trigger] m[i].0, #[trigger] m[j].0)
}

/// The first place at or after `from` whose member does not come before `k`.
pub open spec fn member_rank(s: Seq<KeyView>, k: KeyView, from: int) -> int
    decreases s.len() - from,
{
    if 0 <= from < s.len() && key_lt(s[from], k) {
        member_rank(s, k, from + 1)
    } else {
        from
    }
}

/// `k` stands in `s` at the place that the order gives it.
pub open spec fn members_hold(s: Seq<KeyView>, k: KeyView) -> bool {
    let i = member_rank(s, k, 0);
    i < s.len() && s[i] == k
}

/// The members `s` and `k`: `s` itself if it holds `k`, else `s` with `k` at
/// the place that the order gives it.
pub open spec fn members_insert(s: Seq<KeyView>, k: KeyView) -> Seq<KeyView> {
    if members_hold(s, k) {
        s
    } else {
        s.insert(member_rank(s, k, 0), k)
    }
}

/// The members `s` stand in the canonical order, each once.
pub open spec fn members_sorted(s: Seq<KeyView>) -> bool {
    forall|i: int, j: int| 0 <= i < j < s.len() ==> key_lt(#[trigger] s[i], #[trigger] s[j])
}

/// Before its rank a key finds smaller keys only, and at it none.
pub proof fn lemma_entry_rank(m: Seq<(KeyView, RespView)>, k: KeyView, from: int)
    requires
        0 <= from <= m.len(),
    ensures
        from <= entry_rank(m, k, from) <= m.len(),
        forall|i: int| from <= i < entry_rank(m, k, from) ==> key_lt(#[trigger] m[i].0, k),
        entry_rank(m, k, from) < m.len() ==> !key_lt(m[entry_rank(m, k, from)].0, k),
    decreases m.len() - from,
{
    if from < m.len() && key_lt(m[from].0, k) {
        lemma_entry_rank(m, k, from + 1);
    }
}

/// Before its rank a key finds smaller members only, and at it none.
pub proof fn lemma_member_rank(s: Seq<KeyView>, k: KeyView, from: int)
    requires
        0 <= from <= s.len(),
    ensures
        from <= member_rank(s, k, from) <= s.len(),
        forall|i: int| from <= i < member_rank(s, k, from) ==> key_lt(#[trigger] s[i], k),
        member_rank(s, k, from) < s.len() ==> !key_lt(s[member_rank(s, k, from)], k),
    decreases s.len() - from,
{
    if from < s.len() && key_lt(s[from], k) {
        lemma_member_rank(s, k, from + 1);
    }
}

/// Binding a key in ordered entries leaves them ordered.
pub proof fn lemma_entries_insert_sorted(m: Seq<(KeyView, RespView)>, k: KeyView, v: RespView)
    requires
        entries_sorted(m),
    ensures
        entries_sorted(entries_insert(m, k, v)),
{
    let r = entry_rank(m, k, 0);
    let n = entries_insert(m, k, v);
    lemma_entry_rank(m, k, 0);
    assert forall|j: int| r <= j < m.len() && m[j].0 != k implies key_lt(k, #[trigger] m[j].0) by {
        lemma_key_lt_total(m[j].0, k);
        if key_lt(m[j].0, k) {
            if j > r {
                assert(key_lt(m[r].0, m[j].0));
                lemma_key_lt_transitive(m[r].0, m[j].0, k);
            }
        }
    }
    assert forall|j: int| r < j < m.len() implies m[j].0 != k by {
        assert(key_lt(m[r].0, m[j].0));
    }
    assert forall|i: int, j: int| 0 <= i < j < n.len() implies key_lt(
        #[trigger] n[i].0,
        #[trigger] n[j].0,
    ) by {
        if r < m.len() && m[r].0 == k {
            assert(key_lt(m[i].0, m[j].0));
        } else {
            let a = if i < r {
                i
            } else {
                i - 1
            };
            let b = if j < r {
                j
            } else {
                j - 1
            };
            if i == r {
                assert(n[j] == m[b]);
            } else if j == r {
                assert(n[i] == m[a]);
            } else {
                assert(n[i] == m[a] && n[j] == m[b]);
                assert(key_lt(m[a].0, m[b].0));
            }
        }
    }
}

/// Adding a member to ordered members leaves them ordered.
pub proof fn lemma_members_insert_sorted(s: Seq<KeyView>, k: KeyView)
    requires
        members_sorted(s),
    ensures
        members_sorted(members_insert(s, k)),
{
    let r = member_rank(s, k, 0);
    let n = members_insert(s, k);
    lemma_member_rank(s, k, 0);
    if !(r < s.len() && s[r] == k) {
        assert forall|j: int| r <= j < s.len() implies key_lt(k, #[trigger] s[j]) by {
            lemma_key_lt_total(s[j], k);
            if j > r {
                assert(key_lt(s[r], s[j]));
                if key_lt(s[j], k) {
                    lemma_key_lt_transitive(s[r], s[j], k);
                }
            }
        }
        assert forall|i: int, j: int| 0 <= i < j < n.len() implies key_lt(
            #[trigger] n[i],
            #[trigger] n[j],
        ) by {
            let a = if i < r {
                i
            } else {
                i - 1
            };
            let b = if j < r {
                j
            } else {
                j - 1
            };
            if i == r {
                assert(n[j] == s[b]);
            } else if j == r {
                assert(n[i] == s[a]);
            } else {
                assert(n[i] == s[a] && n[j] == s[b]);
                assert(key_lt(s[a], s[b]));
            }
        }
    }
}

/// Ordered members hold a key just when it stands at its place.
pub proof fn lemma_members_hold(s: Seq<KeyView>, k: KeyView)
    requires
        members_sorted(s),
    ensures
        members_hold(s, k) == s.contains(k),
{
    let r = member_rank(s, k, 0);
    lemma_member_rank(s, k, 0);
    if s.contains(k) {
        let j = choose|j: int| 0 <= j < s.len() && s[j] == k;
        lemma_key_lt_irreflexive(k);
        if j < r {
            assert(key_lt(s[j], k));
        } else if j > r {
            assert(key_lt(s[r], s[j]));
        }
    }
}

/// A key that comes after every key of the entries is bound at their end.
pub proof fn lemma_entries_insert_last(m: Seq<(KeyView, RespView)>, k: KeyView, v: RespView)
    requires
        forall|i: int| 0 <= i < m.len() ==> key_lt(#[trigger] m[i].0, k),
    ensures
        entries_insert(m, k, v) == m.push((k, v)),
{
    lemma_entry_rank(m, k, 0);
    let r = entry_rank(m, k, 0);
    if r < m.len() {
        assert(key_lt(m[r].0, k));
    }
    assert(m.insert(r, (k, v)) =~= m.push((k, v)));
}

/// A member that comes after every member is added at the end.
pub proof fn lemma_members_insert_last(s: Seq<KeyView>, k: KeyView)
    requires
        forall|i: int| 0 <= i < s.len() ==> key_lt(#[trigger] s[i], k),
    ensures
        members_insert(s, k) == s.push(k),
{
    lemma_member_rank(s, k, 0);
    let r = member_rank(s, k, 0);
    if r < s.len() {
        assert(key_lt(s[r], k));
    }
    assert(s.insert(r, k) =~= s.push(k));
}

/// The models of the values of `v`, in order.
pub open spec fn views_of(v: Seq<Resp>) -> Seq<RespView> {
    Seq::new(v.len(), |i: int| v[i]@)
}

/// A sequence of values, or the null array. The null one goes over the
/// wire without its values.
#[derive(Debug, PartialEq)]
pub struct Array {
    value: Vec<Resp>,
    is_null: bool,
}

/// Entries from key to value, in the canonical order of their keys.
#[derive(Debug, PartialEq)]
pub struct RespMap {
    value: Vec<(Key, Resp)>,
}

/// Keys in their canonical order.
#[derive(Debug, PartialEq)]
pub struct RespSet {
    value: Vec<Key>,
}

/// A value of the protocol: one case for each wire type.
#[derive(Debug, PartialEq)]
pub enum Resp {
    SimpleString(SimpleString),
    SimpleError(SimpleError),
    Integer(Integer),
    BulkString(BulkString),
    Array(Array),
    Null(Null),
    Boolean(Boolean),
    Double(Double),
    BulkError(BulkError),
    RespMap(Box<RespMap>),
    RespSet(RespSet),
}

impl View for Array {
    type V = Seq<RespView>;

    closed spec fn view(&self) -> Seq<RespView>
        decreases self,
    {
        Seq::new(
            self.value.len() as nat,
            |i: int|
                if 0 <= i < self.value.len() {
                    self.value[i].view()
                } else {
                    RespView::Null
                },
        )
    }
}

impl View for RespMap {
    type V = Seq<(KeyView, RespView)>;

    closed spec fn view(&self) -> Seq<(KeyView, RespView)>
        decreases self,
    {
        Seq::new(
            self.value.len() as nat,
            |i: int|
                if 0 <= i < self.value.len() {
                    (self.value[i].0.view(), self.value[i].1.view())
                } else {
                    (KeyView::Null, RespView::Null)
                },
        )
    }
}

impl View for RespSet {
    type V = Seq<KeyView>;

    closed spec fn view(&self) -> Seq<KeyView> {
        Seq::new(self.value.len() as nat, |i: int| self.value[i].view())
    }
}

impl View for Resp {
    type V = RespView;

    open spec fn view(&self) -> RespView
        decreases self,
    {
        match self {
            Resp::SimpleString(s) => RespView::SimpleString(s@),
            Resp::SimpleError(s) => RespView::SimpleError(s@),
            Resp::Integer(i) => RespView::Integer(i@),
            Resp::BulkString(s) => RespView::BulkString(s.value@, s.is_null),
            Resp::Array(a) => RespView::Array(a.view(), a.null()),
            Resp::Null(_) => RespView::Null,
            Resp::Boolean(b) => RespView::Boolean(b@),
            Resp::Double(d) => RespView::Double(d@),
            Resp::BulkError(s) => RespView::BulkError(s@),
            Resp::RespMap(m) => RespView::RespMap((**m).view()),
            Resp::RespSet(s) => RespView::RespSet(s@),
        }
    }
}

/// A copy of each value of `v`, in order.
fn clone_items(v: &Vec<Resp>) -> (r: Vec<Resp>)
    ensures
        r.len() == v.len(),
        forall|j: int| 0 <= j < v.len() ==> r@[j]@ == v@[j]@,
    decreases v,
{
    let mut r: Vec<Resp> = Vec::new();
    let mut i: usize = 0;
    while i < v.len()
        invariant
            i <= v.len(),
            r.len() == i,
            forall|j: int| 0 <= j < i ==> r@[j]@ == v@[j]@,
        decreases v.len() - i,
    {
        r.push(clone_resp(&v[i]));
        i = i + 1;
    }
    r
}

/// A copy of each entry of `v`, in order.
fn clone_entries(v: &Vec<(Key, Resp)>) -> (r: Vec<(Key, Resp)>)
    ensures
        r.len() == v.len(),
        forall|j: int| 0 <= j < v.len() ==> r@[j].0@ == v@[j].0@ && r@[j].1@ == v@[j].1@,
    decreases v,
{
    let mut r: Vec<(Key, Resp)> = Vec::new();
    let mut i: usize = 0;
    while i < v.len()
        invariant
            i <= v.len(),
            r.len() == i,
            forall|j: int| 0 <= j < i ==> r@[j].0@ == v@[j].0@ && r@[j].1@ == v@[j].1@,
        decreases v.len() - i,
    {
        let k = v[i].0.clone();
        let x = clone_resp(&v[i].1);
        r.push((k, x));
        i = i + 1;
    }
    r
}

/// A copy of `v`.
fn clone_resp(v: &Resp) -> (r: Resp)
    ensures
        r@ == v@,
    decreases v,
{
    match v {
        Resp::SimpleString(s) => Resp::SimpleString(s.clone()),
        Resp::SimpleError(s) => Resp::SimpleError(s.clone()),
        Resp::Integer(i) => Resp::Integer(*i),
        Resp::BulkString(s) => Resp::BulkString(s.clone()),
        Resp::Array(a) => {
            let items = clone_items(&a.value);
            let c = Array { value: items, is_null: a.is_null };
            assert(c@ =~= a@);
            Resp::Array(c)
        },
        Resp::Null(_) => Resp::Null(Null),
        Resp::Boolean(b) => Resp::Boolean(*b),
        Resp::Double(d) => Resp::Double(d.clone()),
        Resp::BulkError(s) => Resp::BulkError(s.clone()),
        Resp::RespMap(m) => {
            let entries = clone_entries(&m.value);
            let c = RespMap { value: entries };
            assert(c@ =~= m@);
            Resp::RespMap(Box::new(c))
        },
        Resp::RespSet(s) => Resp::RespSet(s.clone()),
    }
}

/// The key that a value can serve as; nothing for an array, a double, a map
/// or a set.
pub open spec fn key_of(v: RespView) -> Option<KeyView> {
    match v {
        RespView::SimpleString(s) => Some(KeyView::SimpleString(s)),
        RespView::SimpleError(s) => Some(KeyView::SimpleError(s)),
        RespView::Integer(i) => Some(KeyView::Integer(i)),
        RespView::BulkString(s, null) => Some(KeyView::BulkString(s, null)),
        RespView::BulkError(s) => Some(KeyView::BulkError(s)),
        RespView::Null => Some(KeyView::Null),
        RespView::Boolean(b) => Some(KeyView::Boolean(b)),
        _ => None,
    }
}

/// The value that a key is.
pub open spec fn value_of(k: KeyView) -> RespView {
    match k {
        KeyView::SimpleString(s) => RespView::SimpleString(s),
        KeyView::SimpleError(s) => RespView::SimpleError(s),
        KeyView::Integer(i) => RespView::Integer(i),
        KeyView::BulkString(s, null) => RespView::BulkString(s, null),
        KeyView::BulkError(s) => RespView::BulkError(s),
        KeyView::Null => RespView::Null,
        KeyView::Boolean(b) => RespView::Boolean(b),
    }
}

impl TryFrom<Resp> for Key {
    type Error = UnsupportedKey;

    fn try_from(value: Resp) -> (r: Result<Self, UnsupportedKey>)
        ensures
            match r {
                Ok(k) => key_of(value@) == Some(k@),
                Err(_) => key_of(value@) is None,
            },
    {
        match value {
            Resp::Boolean(v) => Ok(Key::Boolean(v)),
            Resp::BulkString(v) => Ok(Key::BulkString(v)),
            Resp::SimpleString(v) => Ok(Key::SimpleString(v)),
            Resp::SimpleError(v) => Ok(Key::SimpleError(v)),
            Resp::BulkError(v) => Ok(Key::BulkError(v)),
            Resp::Integer(v) => Ok(Key::Integer(v)),
            Resp::Null(v) => Ok(Key::Null(v)),
            _ => Err(UnsupportedKey),
        }
    }
}

impl vstd::std_specs::convert::TryFromSpecImpl<Resp> for Key {
    open spec fn obeys_try_from_spec() -> bool {
        true
    }

    open spec fn try_from_spec(value: Resp) -> Result<Self, UnsupportedKey> {
        match value {
            Resp::Boolean(v) => Ok(Key::Boolean(v)),
            Resp::BulkString(v) => Ok(Key::BulkString(v)),
            Resp::SimpleString(v) => Ok(Key::SimpleString(v)),
            Resp::SimpleError(v) => Ok(Key::SimpleError(v)),
            Resp::BulkError(v) => Ok(Key::BulkError(v)),
            Resp::Integer(v) => Ok(Key::Integer(v)),
            Resp::Null(v) => Ok(Key::Null(v)),
            _ => Err(UnsupportedKey),
        }
    }
}

impl vstd::std_specs::convert::FromSpecImpl<Key> for Resp {
    open spec fn obeys_from_spec() -> bool {
        true
    }

    open spec fn from_spec(value: Key) -> Resp {
        match value {
            Key::Boolean(v) => Resp::Boolean(v),
            Key::BulkString(v) => Resp::BulkString(v),
            Key::SimpleString(v) => Resp::SimpleString(v),
            Key::SimpleError(v) => Resp::SimpleError(v),
            Key::BulkError(v) => Resp::BulkError(v),
            Key::Integer(v) => Resp::Integer(v),
            Key::Null(v) => Resp::Null(v),
        }
    }
}

impl From<Key> for Resp {
    fn from(value: Key) -> (r: Self)
        ensures
            r@ == value_of(value@),
    {
        match value {
            Key::Boolean(v) => Resp::Boolean(v),
            Key::BulkString(v) => Resp::BulkString(v),
            Key::SimpleString(v) => Resp::SimpleString(v),
            Key::SimpleError(v) => Resp::SimpleError(v),
            Key::BulkError(v) => Resp::BulkError(v),
            Key::Integer(v) => Resp::Integer(v),
            Key::Null(v) => Resp::Null(v),
        }
    }
}

impl Clone for Resp {
    fn clone(&self) -> (r: Self)
        ensures
            r@ == self@,
    {
        clone_resp(self)
    }
}

impl Array {
    /// Whether this is the null array.
    pub closed spec fn null(&self) -> bool {
        self.is_null
    }

    pub fn new(value: Vec<Resp>, is_null: bool) -> (r: Self)
        ensures
            r@ == views_of(value@),
            r.null() == is_null,
    {
        let r = Array { value, is_null };
        assert(r@ =~= views_of(r.value@));
        r
    }

    /// The number of values.
    pub fn len(&self) -> (r: usize)
        ensures
            r == self@.len(),
    {
        self.value.len()
    }

    /// The value at place `i`.
    pub fn get(&self, i: usize) -> (r: &Resp)
        requires
            i < self@.len(),
        ensures
            r@ == self@[i as int],
    {
        &self.value[i]
    }

    /// The values, taken out of the array.
    pub fn into_items(self) -> (r: Vec<Resp>)
        ensures
            views_of(r@) == self@,
    {
        assert(self@ =~= views_of(self.value@));
        self.value
    }

    /// Whether this is the null array.
    pub fn is_null(&self) -> (r: bool)
        ensures
            r == self.null(),
    {
        self.is_null
    }

    /// Appends `item`.
    pub fn push(&mut self, item: Resp)
        ensures
            final(self)@ == old(self)@.push(item@),
            final(self).null() == old(self).null(),
    {
        self.value.push(item);
        assert(self@ =~= old(self)@.push(item@));
    }
}

impl Clone for Array {
    fn clone(&self) -> (r: Self)
        ensures
            r@ == self@,
            r.null() == self.null(),
    {
        let items = clone_items(&self.value);
        let c = Array { value: items, is_null: self.is_null };
        assert(c@ =~= self@);
        c
    }
}

impl Default for Array {
    fn default() -> (r: Self)
        ensures
            r@ == Seq::<RespView>::empty(),
            !r.null(),
    {
        let r = Array { value: Vec::new(), is_null: false };
        assert(r@ =~= Seq::<RespView>::empty());
        r
    }
}

impl RespMap {
    /// The keys stand in the canonical order, each once.
    pub open spec fn wf(&self) -> bool {
        entries_sorted(self@)
    }

    /// The map without entries.
    pub fn new() -> (r: Self)
        ensures
            r@ == Seq::<(KeyView, RespView)>::empty(),
            r.wf(),
    {
        let r = RespMap { value: Vec::new() };
        assert(r@ =~= Seq::<(KeyView, RespView)>::empty());
        r
    }

    /// The number of entries.
    pub fn len(&self) -> (r: usize)
        ensures
            r == self@.len(),
    {
        self.value.len()
    }

    /// The key of the entry at place `i`.
    pub fn key_at(&self, i: usize) -> (r: &Key)
        requires
            i < self@.len(),
        ensures
            r@ == self@[i as int].0,
    {
        &self.value[i].0
    }

    /// The value of the entry at place `i`.
    pub fn value_at(&self, i: usize) -> (r: &Resp)
        requires
            i < self@.len(),
        ensures
            r@ == self@[i as int].1,
    {
        &self.value[i].1
    }

    /// The place of the first entry whose key does not come before `key`.
    fn rank(&self, key: &Key) -> (r: usize)
        ensures
            r == entry_rank(self@, key@, 0),
            r <= self@.len(),
    {
        let mut i: usize = 0;
        while i < self.value.len() && self.value[i].0.precedes(key)
            invariant
                i <= self.value.len(),
                entry_rank(self@, key@, 0) == entry_rank(self@, key@, i as int),
            decreases self.value.len() - i,
        {
            i = i + 1;
        }
        i
    }

    /// Binds `key` to `value`, in place of what `key` was bound to.
    pub fn insert(&mut self, key: Key, value: Resp)
        ensures
            final(self)@ == entries_insert(old(self)@, key@, value@),
            old(self).wf() ==> final(self).wf(),
    {
        let i = self.rank(&key);
        proof {
            if old(self).wf() {
                lemma_entries_insert_sorted(old(self)@, key@, value@);
            }
        }
        if i < self.value.len() && self.value[i].0.same(&key) {
            self.value.set(i, (key, value));
            assert(self@ =~= old(self)@.update(i as int, (key@, value@)));
        } else {
            self.value.insert(i, (key, value));
            assert(self@ =~= old(self)@.insert(i as int, (key@, value@)));
        }
    }

    /// The value that `key` is bound to.
    pub fn get(&self, key: &Key) -> (r: Option<&Resp>)
        ensures
            match r {
                Some(v) => exists|i: int| 0 <= i < self@.len() && self@[i] == (key@, v@),
                None => forall|i: int| 0 <= i < self@.len() ==> (#[trigger] self@[i]).0 != key@,
            },
    {
        let mut i: usize = 0;
        while i < self.value.len()
            invariant
                i <= self.value.len(),
                forall|j: int| 0 <= j < i ==> (#[trigger] self@[j]).0 != key@,
            decreases self.value.len() - i,
        {
            if self.value[i].0.same(key) {
                assert(self@[i as int] == (key@, self.value[i as int].1@));
                return Some(&self.value[i].1);
            }
            i = i + 1;
        }
        None
    }
}

impl Clone for RespMap {
    fn clone(&self) -> (r: Self)
        ensures
            r@ == self@,
    {
        let entries = clone_entries(&self.value);
        let c = RespMap { value: entries };
        assert(c@ =~= self@);
        c
    }
}

impl Default for RespMap {
    fn default() -> (r: Self)
        ensures
            r@ == Seq::<(KeyView, RespView)>::empty(),
            r.wf(),
    {
        RespMap::new()
    }
}

impl RespSet {
    /// The members stand in the canonical order, each once.
    pub open spec fn wf(&self) -> bool {
        members_sorted(self@)
    }

    /// The set without members.
    pub fn new() -> (r: Self)
        ensures
            r@ == Seq::<KeyView>::empty(),
            r.wf(),
    {
        let r = RespSet { value: Vec::new() };
        assert(r@ =~= Seq::<KeyView>::empty());
        r
    }

    /// The number of members.
    pub fn len(&self) -> (r: usize)
        ensures
            r == self@.len(),
    {
        self.value.len()
    }

    /// The member at place `i`.
    pub fn get(&self, i: usize) -> (r: &Key)
        requires
            i < self@.len(),
        ensures
            r@ == self@[i as int],
    {
        &self.value[i]
    }

    /// The place of the first member that does not come before `key`.
    fn rank(&self, key: &Key) -> (r: usize)
        ensures
            r == member_rank(self@, key@, 0),
            r <= self@.len(),
    {
        let mut i: usize = 0;
        while i < self.value.len() && self.value[i].precedes(key)
            invariant
                i <= self.value.len(),
                member_rank(self@, key@, 0) == member_rank(self@, key@, i as int),
            decreases self.value.len() - i,
        {
            i = i + 1;
        }
        i
    }

    /// Adds `key`, and says whether the set did not hold it before.
    pub fn insert(&mut self, key: Key) -> (r: bool)
        ensures
            final(self)@ == members_insert(old(self)@, key@),
            r == !members_hold(old(self)@, key@),
            old(self).wf() ==> final(self).wf() && r == !old(self)@.contains(key@),
    {
        let i = self.rank(&key);
        proof {
            if old(self).wf() {
                lemma_members_insert_sorted(old(self)@, key@);
                lemma_members_hold(old(self)@, key@);
            }
        }
        if i < self.value.len() && self.value[i].same(&key) {
            false
        } else {
            self.value.insert(i, key);
            assert(self@ =~= old(self)@.insert(i as int, key@));
            true
        }
    }

    /// Whether `key` is a member.
    pub fn contains(&self, key: &Key) -> (r: bool)
        ensures
            r == self@.contains(key@),
    {
        let mut i: usize = 0;
        while i < self.value.len()
            invariant
                i <= self.value.len(),
                self@.len() == self.value.len(),
                forall|j: int| 0 <= j < i ==> self@[j] != key@,
            decreases self.value.len() - i,
        {
            if self.value[i].same(key) {
                assert(self@[i as int] == key@);
                return true;
            }
            i = i + 1;
        }
        false
    }
}

impl Clone for RespSet {
    fn clone(&self) -> (r: Self)
        ensures
            r@ == self@,
    {
        let mut v: Vec<Key> = Vec::new();
        let mut i: usize = 0;
        while i < self.value.len()
            invariant
                i <= self.value.len(),
                v.len() == i,
                forall|j: int| 0 <= j < i ==> v@[j]@ == self.value@[j]@,
            decreases self.value.len() - i,
        {
            v.push(self.value[i].clone());
            i = i + 1;
        }
        let c = RespSet { value: v };
        assert(c@ =~= self@);
        c
    }
}

impl Default for RespSet {
    fn default() -> (r: Self)
        ensures
            r@ == Seq::<KeyView>::empty(),
            r.wf(),
    {
        RespSet::new()
    }
}

} // verus!
