//! Decimal integers as text: what a run of characters spells, how to read it
//! with a bound, and the canonical spelling of a number.

use vstd::prelude::*;
use vstd::string::*;

verus! {

/// `c` is one of `0-9`.
pub open spec fn is_digit(c: char) -> bool {
    '0' <= c && c <= '9'
}

/// The value, `0..10`, of a decimal digit.
pub open spec fn digit_of(c: char) -> nat {
    (c as int - '0' as int) as nat
}

/// The digit that spells `v`, for `v` in `0..10`.
pub open spec fn digit_char(v: nat) -> char {
    ('0' as int + v) as char
}

/// Every character of `s` is a decimal digit.
pub open spec fn all_digits(s: Seq<char>) -> bool {
    forall|i: int| 0 <= i < s.len() ==> is_digit(#[trigger] s[i])
}

/// `s` is one or more decimal digits.
pub open spec fn is_number(s: Seq<char>) -> bool {
    s.len() > 0 && all_digits(s)
}

/// The number that the digits of `s` spell, most significant first.
pub open spec fn number_value(s: Seq<char>) -> nat
    decreases s.len(),
{
    if s.len() == 0 {
        0
    } else {
        10 * number_value(s.drop_last()) + digit_of(s.last())
    }
}

/// `s` without a leading `+`.
pub open spec fn after_plus(s: Seq<char>) -> Seq<char> {
    if s.len() > 0 && s[0] == '+' {
        s.subrange(1, s.len() as int)
    } else {
        s
    }
}

/// `s` is an optional `+` followed by one or more digits.
pub open spec fn is_unsigned(s: Seq<char>) -> bool {
    is_number(after_plus(s))
}

/// The number that an unsigned text spells.
pub open spec fn unsigned_value(s: Seq<char>) -> nat {
    number_value(after_plus(s))
}

/// `s` starts with a `-`.
pub open spec fn has_minus(s: Seq<char>) -> bool {
    s.len() > 0 && s[0] == '-'
}

/// `s` without a leading `+` or `-`.
pub open spec fn after_sign(s: Seq<char>) -> Seq<char> {
    if s.len() > 0 && (s[0] == '+' || s[0] == '-') {
        s.subrange(1, s.len() as int)
    } else {
        s
    }
}

/// `s` is an optional `+` or `-` followed by one or more digits.
pub open spec fn is_integer(s: Seq<char>) -> bool {
    is_number(after_sign(s))
}

/// The integer that a signed text spells.
pub open spec fn integer_value(s: Seq<char>) -> int {
    if has_minus(s) {
        -(number_value(after_sign(s)) as int)
    } else {
        number_value(after_sign(s)) as int
    }
}

/// The shortest run of digits that spells `n`.
pub open spec fn number_text(n: nat) -> Seq<char>
    decreases n,
{
    if n < 10 {
        seq![digit_char(n)]
    } else {
        number_text(n / 10).push(digit_char(n % 10))
    }
}

/// The canonical spelling of an integer: a `-` for a negative one, no sign
/// otherwise, and no leading zeros.
pub open spec fn integer_text(i: int) -> Seq<char> {
    if i < 0 {
        seq!['-'] + number_text((-i) as nat)
    } else {
        number_text(i as nat)
    }
}

/// A run of digits spells at least what any of its prefixes spells.
pub proof fn lemma_prefix_value(s: Seq<char>, k: int)
    requires
        0 <= k <= s.len(),
    ensures
        number_value(s.take(k)) <= number_value(s),
    decreases s.len() - k,
{
    if k == s.len() {
        assert(s.take(k) =~= s);
    } else {
        lemma_prefix_value(s, k + 1);
        assert(s.take(k + 1).drop_last() =~= s.take(k));
    }
}

/// Reading `number_text(n)` gives `n` back.
pub proof fn lemma_number_text(n: nat)
    ensures
        is_number(number_text(n)),
        number_value(number_text(n)) == n,
        number_text(n)[0] != '+',
        number_text(n)[0] != '-',
    decreases n,
{
    if n < 10 {
        let s = number_text(n);
        assert(s.drop_last().len() == 0);
        assert(number_value(s.drop_last()) == 0);
    } else {
        lemma_number_text(n / 10);
        let s = number_text(n);
        assert(s.drop_last() =~= number_text(n / 10));
    }
}

/// Reading `integer_text(i)` gives `i` back.
pub proof fn lemma_integer_text(i: int)
    ensures
        is_integer(integer_text(i)),
        integer_value(integer_text(i)) == i,
{
    if i < 0 {
        let n = (-i) as nat;
        lemma_number_text(n);
        assert(after_sign(integer_text(i)) =~= number_text(n));
    } else {
        lemma_number_text(i as nat);
    }
}

/// Reads a run of digits whose value is at most `limit`.
pub fn read_number(s: &str, limit: u64) -> (r: Option<u64>)
    ensures
        r is Some <==> is_number(s@) && number_value(s@) <= limit,
        r matches Some(v) ==> v == number_value(s@),
{
    let mut acc: u64 = 0;
    for c in it: s.chars()
        invariant
            it.seq() == s@,
            all_digits(s@.take(it.index() as int)),
            acc == number_value(s@.take(it.index() as int)),
            acc <= limit,
    {
        let ghost i = it.index() as int;
        if !(c >= '0' && c <= '9') {
            assert(!is_digit(s@[i]));
            return None;
        }
        let d = (c as u32 - '0' as u32) as u128;
        let next = acc as u128 * 10 + d;
        proof {
            assert(s@.take(i + 1).drop_last() =~= s@.take(i));
            assert(next == number_value(s@.take(i + 1)));
            assert forall|k: int| 0 <= k < i + 1 implies is_digit(#[trigger] s@.take(i + 1)[k]) by {
                if k < i {
                    assert(is_digit(s@.take(i)[k]));
                }
            }
        }
        if next > limit as u128 {
            proof {
                lemma_prefix_value(s@, i + 1);
            }
            return None;
        }
        acc = next as u64;
    }
    assert(s@.take(s@.len() as int) =~= s@);
    if s.is_empty() {
        None
    } else {
        Some(acc)
    }
}

/// Reads an optional `+` and a run of digits whose value is at most `limit`.
pub fn read_unsigned(s: &str, limit: u64) -> (r: Option<u64>)
    ensures
        r is Some <==> is_unsigned(s@) && unsigned_value(s@) <= limit,
        r matches Some(v) ==> v == unsigned_value(s@),
{
    let n = s.unicode_len();
    if n > 0 && s.get_char(0) == '+' {
        read_number(s.substring_char(1, n), limit)
    } else {
        read_number(s, limit)
    }
}

/// Reads an optional sign and a run of digits that spell an `i64`.
pub fn read_integer(s: &str) -> (r: Option<i64>)
    ensures
        r is Some <==> is_integer(s@) && i64::MIN <= integer_value(s@) <= i64::MAX,
        r matches Some(v) ==> v == integer_value(s@),
{
    let n = s.unicode_len();
    if n > 0 && s.get_char(0) == '-' {
        match read_number(s.substring_char(1, n), 0x8000_0000_0000_0000) {
            Some(m) => {
                if m == 0x8000_0000_0000_0000 {
                    Some(i64::MIN)
                } else {
                    Some(0 - (m as i64))
                }
            },
            None => None,
        }
    } else if n > 0 && s.get_char(0) == '+' {
        match read_number(s.substring_char(1, n), 0x7fff_ffff_ffff_ffff) {
            Some(m) => Some(m as i64),
            None => None,
        }
    } else {
        match read_number(s, 0x7fff_ffff_ffff_ffff) {
            Some(m) => Some(m as i64),
            None => None,
        }
    }
}

} // verus!
