//! Hexadecimal digits and the forty-digit text form of a twenty-byte hash.

use vstd::prelude::*;

verus! {

/// The number of bytes in a hash.
pub const HASH_BYTES: usize = 20;

/// The number of hexadecimal digits that spell a hash.
pub const HASH_DIGITS: usize = 40;

/// `c` is one of `0-9`, `a-f`, `A-F`.
pub open spec fn is_hex_digit(c: char) -> bool {
    ('0' <= c && c <= '9') || ('a' <= c && c <= 'f') || ('A' <= c && c <= 'F')
}

/// The value, `0..16`, of a hexadecimal digit.
pub open spec fn hex_value(c: char) -> int {
    if '0' <= c && c <= '9' {
        c as int - '0' as int
    } else if 'a' <= c && c <= 'f' {
        c as int - 'a' as int + 10
    } else {
        c as int - 'A' as int + 10
    }
}

/// The lower-case digit that spells `v`, for `v` in `0..16`.
pub open spec fn hex_char(v: int) -> char {
    if v < 10 {
        ('0' as int + v) as char
    } else {
        ('a' as int + v - 10) as char
    }
}

/// `c` with the letters `A-Z` replaced by `a-z`.
pub open spec fn lower_char(c: char) -> char {
    if 'A' <= c && c <= 'Z' {
        (c as int + 32) as char
    } else {
        c
    }
}

/// `s` with every capital from `A` to `Z` replaced by its small letter, which
/// is `s` in lower case where `s` holds hexadecimal digits only.
pub open spec fn to_lowercase(s: Seq<char>) -> Seq<char> {
    Seq::new(s.len(), |i: int| lower_char(s[i]))
}

/// `s` is exactly forty hexadecimal digits.
pub open spec fn is_hash_text(s: Seq<char>) -> bool {
    &&& s.len() == HASH_DIGITS
    &&& forall|i: int| 0 <= i < s.len() ==> is_hex_digit(#[trigger] s[i])
}

/// The twenty bytes that forty hexadecimal digits spell, two digits a byte,
/// the high digit first.
pub open spec fn hash_bytes(s: Seq<char>) -> Seq<u8> {
    Seq::new(HASH_BYTES as nat, |i: int| (16 * hex_value(s[2 * i]) + hex_value(s[2 * i + 1])) as u8)
}

/// The lower-case hexadecimal spelling of a run of bytes.
pub open spec fn hash_text(bytes: Seq<u8>) -> Seq<char> {
    Seq::new(
        2 * bytes.len(),
        |i: int|
            if i % 2 == 0 {
                hex_char(bytes[i / 2] as int / 16)
            } else {
                hex_char(bytes[i / 2] as int % 16)
            },
    )
}

/// The value of the ASCII byte `b` read as a hexadecimal digit, if it is one.
pub fn digit_value(b: u8) -> (r: Option<u8>)
    ensures
        match r {
            Some(v) => is_hex_digit(b as char) && v as int == hex_value(b as char),
            None => !is_hex_digit(b as char),
        },
{
    if b >= 48 && b <= 57 {
        Some(b - 48)
    } else if b >= 97 && b <= 102 {
        Some(b - 97 + 10)
    } else if b >= 65 && b <= 70 {
        Some(b - 65 + 10)
    } else {
        None
    }
}

/// The one-character string that spells `v` in lower-case hexadecimal.
pub fn digit_str(v: u8) -> (r: &'static str)
    requires
        v < 16,
    ensures
        r@ == seq![hex_char(v as int)],
{
    proof {
        reveal_strlit("0");
        reveal_strlit("1");
        reveal_strlit("2");
        reveal_strlit("3");
        reveal_strlit("4");
        reveal_strlit("5");
        reveal_strlit("6");
        reveal_strlit("7");
        reveal_strlit("8");
        reveal_strlit("9");
        reveal_strlit("a");
        reveal_strlit("b");
        reveal_strlit("c");
        reveal_strlit("d");
        reveal_strlit("e");
        reveal_strlit("f");
    }
    let r = match v {
        0 => "0",
        1 => "1",
        2 => "2",
        3 => "3",
        4 => "4",
        5 => "5",
        6 => "6",
        7 => "7",
        8 => "8",
        9 => "9",
        10 => "a",
        11 => "b",
        12 => "c",
        13 => "d",
        14 => "e",
        _ => "f",
    };
    assert(r@ =~= seq![hex_char(v as int)]);
    r
}

/// A hexadecimal digit spells a value below sixteen, and the lower-case
/// digit of that value is the digit itself in lower case.
pub proof fn lemma_hex_digit(c: char)
    requires
        is_hex_digit(c),
    ensures
        0 <= hex_value(c) < 16,
        hex_char(hex_value(c)) == lower_char(c),
{
}

/// The lower-case digit of a value below sixteen is a hexadecimal digit that
/// spells the value.
pub proof fn lemma_hex_char(v: int)
    requires
        0 <= v < 16,
    ensures
        is_hex_digit(hex_char(v)),
        hex_value(hex_char(v)) == v,
        lower_char(hex_char(v)) == hex_char(v),
{
}

/// Reading forty hexadecimal digits and printing the bytes gives the digits
/// back in lower case.
pub proof fn law_read_then_print(s: Seq<char>)
    requires
        is_hash_text(s),
    ensures
        hash_text(hash_bytes(s)) == to_lowercase(s),
{
    let bytes = hash_bytes(s);
    let text = hash_text(bytes);
    assert forall|i: int| 0 <= i < text.len() implies text[i] == to_lowercase(s)[i] by {
        let k = i / 2;
        assert(is_hex_digit(s[2 * k]));
        assert(is_hex_digit(s[2 * k + 1]));
        lemma_hex_digit(s[2 * k]);
        lemma_hex_digit(s[2 * k + 1]);
        let high = hex_value(s[2 * k]);
        let low = hex_value(s[2 * k + 1]);
        assert(bytes[k] as int == 16 * high + low);
        assert((16 * high + low) / 16 == high && (16 * high + low) % 16 == low);
    }
    assert(text =~= to_lowercase(s));
}

/// Printing twenty bytes gives forty hexadecimal digits, in lower case, that
/// read as those bytes.
pub proof fn law_print_then_read(bytes: Seq<u8>)
    requires
        bytes.len() == HASH_BYTES,
    ensures
        is_hash_text(hash_text(bytes)),
        hash_bytes(hash_text(bytes)) == bytes,
        to_lowercase(hash_text(bytes)) == hash_text(bytes),
{
    let text = hash_text(bytes);
    assert forall|i: int| 0 <= i < text.len() implies is_hex_digit(#[trigger] text[i])
        && lower_char(text[i]) == text[i] by {
        let b = bytes[i / 2] as int;
        lemma_hex_char(b / 16);
        lemma_hex_char(b % 16);
    }
    assert forall|k: int| 0 <= k < HASH_BYTES implies hash_bytes(text)[k] == bytes[k] by {
        let b = bytes[k] as int;
        lemma_hex_char(b / 16);
        lemma_hex_char(b % 16);
        assert(text[2 * k] == hex_char(b / 16)) by {
            assert((2 * k) % 2 == 0 && (2 * k) / 2 == k);
        }
        assert(text[2 * k + 1] == hex_char(b % 16)) by {
            assert((2 * k + 1) % 2 == 1 && (2 * k + 1) / 2 == k);
        }
        assert(16 * (b / 16) + b % 16 == b);
    }
    assert(hash_bytes(text) =~= bytes);
    assert(to_lowercase(text) =~= text);
}

} // verus!
