//! What holds of every value that the decoder reads: each map and each set
//! in it is in key order, each key once; an array holds as many values as
//! its count says.
use super::composite::{
    entries_insert, entries_sorted, entry_rank, key_of, lemma_entries_insert_sorted,
    lemma_entry_rank, lemma_members_insert_sorted, members_insert, members_sorted,
};
use super::decimal::{i64_of, u64_of};
use super::deserialize::{
    decoded, line_end, parse_entries, parse_items, parse_members, parse_value,
};
use super::serialize::{TAG_ARRAY, TAG_MAP, TAG_SET};
use super::{KeyView, RespView};
use vstd::prelude::*;

verus! {

/// Each map and each set in `v` is in key order, each key once.
pub open spec fn in_key_order(v: RespView) -> bool
    decreases v,
{
    match v {
        RespView::Array(items, _) => all_in_key_order(items),
        RespView::RespMap(m) => entries_sorted(m) && entries_in_key_order(m),
        RespView::RespSet(s) => members_sorted(s),
        _ => true,
    }
}

/// Each of the values is in key order.
pub open spec fn all_in_key_order(items: Seq<RespView>) -> bool
    decreases items,
{
    forall|i: int| 0 <= i < items.len() ==> in_key_order(#[trigger] items[i])
}

/// Each value of the entries is in key order.
pub open spec fn entries_in_key_order(m: Seq<(KeyView, RespView)>) -> bool
    decreases m,
{
    forall|i: int| 0 <= i < m.len() ==> in_key_order((#[trigger] m[i]).1)
}

/// Binding a key to a value in key order, among entries whose values are,
/// leaves them so.
proof fn lemma_insert_in_key_order(m: Seq<(KeyView, RespView)>, k: KeyView, v: RespView)
    requires
        entries_in_key_order(m),
        in_key_order(v),
    ensures
        entries_in_key_order(entries_insert(m, k, v)),
{
    let r = entry_rank(m, k, 0);
    let n = entries_insert(m, k, v);
    lemma_entry_rank(m, k, 0);
    assert forall|i: int| 0 <= i < n.len() implies in_key_order((#[trigger] n[i]).1) by {
        if r < m.len() && m[r].0 == k {
            if i != r {
                assert(n[i] == m[i]);
            }
        } else if i < r {
            assert(n[i] == m[i]);
        } else if i > r {
            assert(n[i] == m[i - 1]);
        }
    }
}

/// A value that is read is in key order and took at least three bytes and
/// at most all.
pub proof fn lemma_parsed_value(s: Seq<u8>)
    ensures
        parse_value(s) matches Ok((v, c)) ==> in_key_order(v) && 3 <= c <= s.len(),
    decreases s.len(), 0nat,
{
    reveal(parse_value);
    reveal(parse_items);
    reveal(parse_entries);
    reveal(parse_members);
    if s.len() >= 3 {
        match line_end(s.skip(1)) {
            Ok(i) => {
                let body = s.subrange(1, 1 + i);
                let tail = s.skip(i + 3);
                assert(tail.len() == s.len() - i - 3);
                if s[0] == TAG_ARRAY {
                    match i64_of(body) {
                        Some(n) => {
                            if n >= 0 {
                                lemma_parsed_items(tail, n as nat, Seq::empty());
                            } else {
                                assert(all_in_key_order(Seq::<RespView>::empty()));
                            }
                        },
                        None => {},
                    }
                } else if s[0] == TAG_MAP {
                    match u64_of(body) {
                        Some(n) => {
                            lemma_parsed_entries(tail, n as nat, Seq::empty());
                        },
                        None => {},
                    }
                } else if s[0] == TAG_SET {
                    match u64_of(body) {
                        Some(n) => {
                            lemma_parsed_members(tail, n as nat, Seq::empty());
                        },
                        None => {},
                    }
                }
            },
            Err(_) => {},
        }
    }
}

/// Values that are read are in key order, are as many as were asked for,
/// and took at most all bytes.
pub proof fn lemma_parsed_items(s: Seq<u8>, n: nat, acc: Seq<RespView>)
    requires
        all_in_key_order(acc),
    ensures
        parse_items(s, n, acc) matches Ok((r, c)) ==> all_in_key_order(r) && r.len() == acc.len()
            + n && 0 <= c <= s.len(),
    decreases s.len(), n + 1,
{
    reveal(parse_items);
    reveal(parse_value);
    if n > 0 {
        lemma_parsed_value(s);
        match parse_value(s) {
            Ok((v, c)) => {
                if 0 < c <= s.len() {
                    let next = acc.push(v);
                    assert(all_in_key_order(next)) by {
                        assert forall|i: int| 0 <= i < next.len() implies in_key_order(
                            #[trigger] next[i],
                        ) by {
                            if i < acc.len() {
                                assert(next[i] == acc[i]);
                            }
                        }
                    }
                    lemma_parsed_items(s.skip(c), (n - 1) as nat, next);
                }
            },
            Err(_) => {},
        }
    }
}

/// Entries that are read are in key order, their values too, and took at
/// most all bytes.
pub proof fn lemma_parsed_entries(s: Seq<u8>, n: nat, acc: Seq<(KeyView, RespView)>)
    requires
        entries_sorted(acc),
        entries_in_key_order(acc),
    ensures
        parse_entries(s, n, acc) matches Ok((r, c)) ==> entries_sorted(r) && entries_in_key_order(
            r,
        ) && 0 <= c <= s.len(),
    decreases s.len(), n + 1,
{
    reveal(parse_entries);
    reveal(parse_value);
    if n > 0 {
        lemma_parsed_value(s);
        match parse_value(s) {
            Ok((kv, c)) => {
                if 0 < c <= s.len() {
                    match key_of(kv) {
                        Some(k) => {
                            lemma_parsed_value(s.skip(c));
                            match parse_value(s.skip(c)) {
                                Ok((v, d)) => {
                                    if 0 < d <= s.len() - c {
                                        lemma_entries_insert_sorted(acc, k, v);
                                        lemma_insert_in_key_order(acc, k, v);
                                        lemma_parsed_entries(
                                            s.skip(c + d),
                                            (n - 1) as nat,
                                            entries_insert(acc, k, v),
                                        );
                                    }
                                },
                                Err(_) => {},
                            }
                        },
                        None => {},
                    }
                }
            },
            Err(_) => {},
        }
    }
}

/// Keys that are read are in key order and took at most all bytes.
pub proof fn lemma_parsed_members(s: Seq<u8>, n: nat, acc: Seq<KeyView>)
    requires
        members_sorted(acc),
    ensures
        parse_members(s, n, acc) matches Ok((r, c)) ==> members_sorted(r) && 0 <= c <= s.len(),
    decreases s.len(), n + 1,
{
    reveal(parse_members);
    reveal(parse_value);
    if n > 0 {
        lemma_parsed_value(s);
        match parse_value(s) {
            Ok((kv, c)) => {
                if 0 < c <= s.len() {
                    match key_of(kv) {
                        Some(k) => {
                            lemma_members_insert_sorted(acc, k);
                            lemma_parsed_members(
                                s.skip(c),
                                (n - 1) as nat,
                                members_insert(acc, k),
                            );
                        },
                        None => {},
                    }
                }
            },
            Err(_) => {},
        }
    }
}

/// Every value that the decoder gives is in key order.
pub proof fn lemma_decoded_in_key_order(s: Seq<u8>)
    ensures
        decoded(s) matches Ok(v) ==> in_key_order(v),
{
    lemma_parsed_value(s);
}

} // verus!
