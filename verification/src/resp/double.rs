//! The text of a double: an optional sign, then `inf`, `infinity`, `nan` in
//! any letter case, or a decimal number with an optional exponent.
use super::decimal::is_digit;
use vstd::prelude::*;

verus! {

/// The lower-case form of an ASCII letter; any other byte is itself.
pub open spec fn lower(b: u8) -> u8 {
    if 65 <= b <= 90 {
        (b + 32) as u8
    } else {
        b
    }
}

/// `s` spells the lower-case word `w`, in any letter case.
pub open spec fn spells(s: Seq<u8>, w: Seq<u8>) -> bool {
    s.len() == w.len() && forall|i: int| 0 <= i < s.len() ==> lower(#[trigger] s[i]) == w[i]
}

/// The first place at or after `from` where `s` holds no digit.
pub open spec fn digits_end(s: Seq<u8>, from: int) -> int
    decreases s.len() - from,
{
    if 0 <= from < s.len() && is_digit(s[from]) {
        digits_end(s, from + 1)
    } else {
        from
    }
}

/// `b` is `+` or `-`.
pub open spec fn is_sign(b: u8) -> bool {
    b == 43 || b == 45
}

/// Where the digits of an exponent start, when the exponent mark stands at
/// `mark`: behind the mark and an optional sign.
pub open spec fn exponent_start(s: Seq<u8>, mark: int) -> int {
    if mark + 1 < s.len() && is_sign(s[mark + 1]) {
        mark + 2
    } else {
        mark + 1
    }
}

/// `s` is a decimal number: digits with at most one point among them, at
/// least one digit in all, then an optional exponent of `e`, an optional
/// sign and at least one digit.
pub open spec fn is_number(s: Seq<u8>) -> bool {
    let a = digits_end(s, 0);
    let pointed = a < s.len() && s[a] == 46;
    let b = if pointed {
        digits_end(s, a + 1)
    } else {
        a
    };
    let count = if pointed {
        b - 1
    } else {
        b
    };
    count > 0 && (b == s.len() || (b < s.len() && lower(s[b]) == 101 && {
        let c = exponent_start(s, b);
        let d = digits_end(s, c);
        d > c && d == s.len()
    }))
}

/// `s` without its leading sign, if it has one.
pub open spec fn unsigned_part(s: Seq<u8>) -> Seq<u8> {
    if s.len() > 0 && is_sign(s[0]) {
        s.drop_first()
    } else {
        s
    }
}

/// `s` is the text of a double.
pub open spec fn is_double_text(s: Seq<u8>) -> bool {
    let t = unsigned_part(s);
    spells(t, seq![105u8, 110, 102]) || spells(t, seq![105u8, 110, 102, 105, 110, 105, 116, 121])
        || spells(t, seq![110u8, 97, 110]) || is_number(t)
}

/// From `from` up to the end of the digits there are digits only.
pub proof fn lemma_digits_end(s: Seq<u8>, from: int)
    requires
        0 <= from <= s.len(),
    ensures
        from <= digits_end(s, from) <= s.len(),
        forall|i: int| from <= i < digits_end(s, from) ==> is_digit(#[trigger] s[i]),
        digits_end(s, from) < s.len() ==> !is_digit(s[digits_end(s, from)]),
    decreases s.len() - from,
{
    if from < s.len() && is_digit(s[from]) {
        lemma_digits_end(s, from + 1);
    }
}

/// The text of a double holds no carriage return.
pub proof fn lemma_double_text_has_no_cr(s: Seq<u8>)
    requires
        is_double_text(s),
    ensures
        forall|i: int| 0 <= i < s.len() ==> #[trigger] s[i] != 13,
{
    let t = unsigned_part(s);
    assert forall|i: int| 0 <= i < t.len() implies #[trigger] t[i] != 13 by {
        if is_number(t) {
            let a = digits_end(t, 0);
            lemma_digits_end(t, 0);
            if a < t.len() && t[a] == 46 {
                lemma_digits_end(t, a + 1);
            }
            let b = if a < t.len() && t[a] == 46 {
                digits_end(t, a + 1)
            } else {
                a
            };
            if b < t.len() {
                let c = exponent_start(t, b);
                lemma_digits_end(t, c);
            }
            if i < a {
                assert(is_digit(t[i]));
            } else if i < b {
                if i > a {
                    assert(is_digit(t[i]));
                }
            } else if i >= exponent_start(t, b) {
                assert(is_digit(t[i]));
            }
        } else {
            assert(lower(t[i]) != 13);
        }
    }
    assert forall|i: int| 0 <= i < s.len() implies #[trigger] s[i] != 13 by {
        if s.len() > 0 && is_sign(s[0]) {
            if i > 0 {
                assert(s[i] == t[i - 1]);
            }
        }
    }
}

fn lower_byte(b: u8) -> (r: u8)
    ensures
        r == lower(b),
{
    if 65 <= b && b <= 90 {
        b + 32
    } else {
        b
    }
}

/// Whether `s` from `from` on spells the lower-case word `w`.
fn spells_from(s: &[u8], from: usize, w: &[u8]) -> (r: bool)
    requires
        from <= s.len(),
    ensures
        r == spells(s@.skip(from as int), w@),
{
    let ghost t = s@.skip(from as int);
    if s.len() - from != w.len() {
        return false;
    }
    let mut i: usize = 0;
    while i < w.len()
        invariant
            from <= s.len(),
            s.len() - from == w.len(),
            i <= w.len(),
            t == s@.skip(from as int),
            forall|j: int| 0 <= j < i ==> lower(#[trigger] t[j]) == w@[j],
        decreases w.len() - i,
    {
        if lower_byte(s[from + i]) != w[i] {
            assert(t[i as int] == s@[from + i]);
            return false;
        }
        assert(t[i as int] == s@[from + i]);
        i = i + 1;
    }
    true
}

/// The first place at or after `from` where `s` holds no digit.
fn skip_digits(s: &[u8], from: usize) -> (r: usize)
    requires
        from <= s.len(),
    ensures
        r == digits_end(s@, from as int),
        from <= r <= s.len(),
{
    let mut i: usize = from;
    while i < s.len() && 48 <= s[i] && s[i] <= 57
        invariant
            from <= i <= s.len(),
            digits_end(s@, from as int) == digits_end(s@, i as int),
        decreases s.len() - i,
    {
        i = i + 1;
    }
    i
}

/// `digits_end` looks at the bytes from `from` on only.
proof fn lemma_digits_end_skip(s: Seq<u8>, k: int, from: int)
    requires
        0 <= k,
        0 <= from,
        k + from <= s.len(),
    ensures
        digits_end(s.skip(k), from) + k == digits_end(s, k + from),
    decreases s.len() - from - k,
{
    let t = s.skip(k);
    if from < t.len() && is_digit(t[from]) {
        lemma_digits_end_skip(s, k, from + 1);
    }
}

/// Whether `s` is the text of a double.
pub fn check_double_text(s: &[u8]) -> (r: bool)
    ensures
        r == is_double_text(s@),
{
    let start: usize = if s.len() > 0 && (s[0] == 43 || s[0] == 45) {
        1
    } else {
        0
    };
    let ghost t = s@.skip(start as int);
    assert(t =~= unsigned_part(s@));
    let inf: [u8; 3] = [105, 110, 102];
    let infinity: [u8; 8] = [105, 110, 102, 105, 110, 105, 116, 121];
    let nan: [u8; 3] = [110, 97, 110];
    assert(inf@ =~= seq![105u8, 110, 102]);
    assert(infinity@ =~= seq![105u8, 110, 102, 105, 110, 105, 116, 121]);
    assert(nan@ =~= seq![110u8, 97, 110]);
    if spells_from(s, start, inf.as_slice()) || spells_from(s, start, infinity.as_slice())
        || spells_from(s, start, nan.as_slice()) {
        return true;
    }
    let a = skip_digits(s, start);
    proof {
        lemma_digits_end_skip(s@, start as int, 0);
    }
    let pointed = a < s.len() && s[a] == 46;
    let b = if pointed {
        proof {
            lemma_digits_end_skip(s@, start as int, a + 1 - start);
        }
        skip_digits(s, a + 1)
    } else {
        a
    };
    let count = if pointed {
        b - start - 1
    } else {
        b - start
    };
    if count == 0 {
        return false;
    }
    if b == s.len() {
        return true;
    }
    if lower_byte(s[b]) != 101 {
        return false;
    }
    let c = if b + 1 < s.len() && (s[b + 1] == 43 || s[b + 1] == 45) {
        b + 2
    } else {
        b + 1
    };
    assert(c - start == exponent_start(t, b - start));
    proof {
        lemma_digits_end_skip(s@, start as int, c - start);
    }
    let d = skip_digits(s, c);
    d > c && d == s.len()
}

} // verus!
