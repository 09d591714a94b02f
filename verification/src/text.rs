//! Small verified helpers for moving between `str`, `String`, characters and bytes.

use vstd::prelude::*;
use vstd::utf8::{encode_utf8, is_ascii_chars, is_ascii_chars_encode_utf8};

verus! {

/// The characters of a string, in order.
pub fn chars_of(s: &str) -> (v: Vec<char>)
    ensures
        v@ == s@,
{
    let mut v: Vec<char> = Vec::new();
    for c in it: s.chars()
        invariant
            v@ == it.seq().take(it.index() as int),
            it.seq() == s@,
    {
        v.push(c);
    }
    v
}


/// A string holding exactly the given characters.
pub fn string_from_chars(v: &[char]) -> (s: String)
    ensures
        s@ == v@,
{
    let mut s = String::new();
    let mut i: usize = 0;
    while i < v.len()
        invariant
            0 <= i <= v@.len(),
            s@ == v@.take(i as int),
        decreases v@.len() - i,
    {
        s.push(v[i]);
        i = i + 1;
        assert(s@ =~= v@.take(i as int));
    }
    assert(v@.take(v@.len() as int) =~= v@);
    s
}

/// ASCII lowercase of one character; other characters are kept.
pub open spec fn ascii_lower(c: char) -> char {
    if 'A' <= c && c <= 'Z' {
        ((c as u32) + 32) as char
    } else {
        c
    }
}

/// ASCII uppercase of one character; other characters are kept.
pub open spec fn ascii_upper(c: char) -> char {
    if 'a' <= c && c <= 'z' {
        ((c as u32) - 32) as char
    } else {
        c
    }
}

/// ASCII lowercase of one byte.
pub open spec fn ascii_lower_byte(b: u8) -> u8 {
    if 65 <= b && b <= 90 {
        (b + 32) as u8
    } else {
        b
    }
}

/// ASCII uppercase of one byte.
pub open spec fn ascii_upper_byte(b: u8) -> u8 {
    if 97 <= b && b <= 122 {
        (b - 32) as u8
    } else {
        b
    }
}

/// ASCII lowercase of a character sequence.
pub open spec fn ascii_lower_chars(s: Seq<char>) -> Seq<char> {
    s.map_values(|c: char| ascii_lower(c))
}

pub fn char_to_ascii_lower(c: char) -> (r: char)
    ensures
        r == ascii_lower(c),
{
    if 'A' <= c && c <= 'Z' {
        ((c as u8) + 32) as char
    } else {
        c
    }
}

pub fn byte_to_ascii_upper(b: u8) -> (r: u8)
    ensures
        r == ascii_upper_byte(b),
{
    if 97 <= b && b <= 122 {
        b - 32
    } else {
        b
    }
}

pub fn byte_to_ascii_lower(b: u8) -> (r: u8)
    ensures
        r == ascii_lower_byte(b),
{
    if 65 <= b && b <= 90 {
        b + 32
    } else {
        b
    }
}

/// ASCII lowercase copy of a string.
pub fn to_ascii_lower_string(s: &str) -> (r: String)
    ensures
        r@ == ascii_lower_chars(s@),
{
    let cs = chars_of(s);
    let mut out = String::new();
    let mut i: usize = 0;
    while i < cs.len()
        invariant
            0 <= i <= cs@.len(),
            cs@ == s@,
            out@ == ascii_lower_chars(s@).take(i as int),
        decreases cs@.len() - i,
    {
        out.push(char_to_ascii_lower(cs[i]));
        i = i + 1;
        assert(out@ =~= ascii_lower_chars(s@).take(i as int));
    }
    assert(ascii_lower_chars(s@).take(cs@.len() as int) =~= ascii_lower_chars(s@));
    out
}

/// A string literal as an owned `String`.
pub fn owned(s: &str) -> (r: String)
    ensures
        r@ == s@,
{
    s.to_owned()
}

/// Concatenation of two strings.
pub fn concat_str(a: &str, b: &str) -> (r: String)
    ensures
        r@ == a@ + b@,
{
    let mut r = a.to_owned();
    r.append(b);
    r
}


/// The character of a decimal digit.
pub open spec fn digit_char(d: int) -> char {
    (d + 48) as char
}

/// Decimal text of a natural number, without leading zeros.
pub open spec fn decimal_chars(n: nat) -> Seq<char>
    decreases n,
{
    if n < 10 {
        seq![digit_char(n as int)]
    } else {
        decimal_chars(n / 10).push(digit_char((n % 10) as int))
    }
}

/// The number that a run of ASCII decimal digits spells, most significant first.
pub open spec fn ascii_decimal_value(b: Seq<u8>) -> int
    decreases b.len(),
{
    if b.len() == 0 {
        0
    } else {
        ascii_decimal_value(b.drop_last()) * 10 + (b.last() - 48)
    }
}

/// Every byte is an ASCII decimal digit.
pub open spec fn all_ascii_digits(b: Seq<u8>) -> bool {
    forall|i: int| 0 <= i < b.len() ==> 48 <= #[trigger] b[i] <= 57
}

/// The UTF-8 bytes of the decimal text of `n` are one or more ASCII digits that
/// spell `n`.
pub proof fn lemma_decimal_text_bytes(n: nat)
    ensures
        is_ascii_chars(decimal_chars(n)),
        encode_utf8(decimal_chars(n)).len() == decimal_chars(n).len(),
        decimal_chars(n).len() > 0,
        all_ascii_digits(encode_utf8(decimal_chars(n))),
        ascii_decimal_value(encode_utf8(decimal_chars(n))) == n,
    decreases n,
{
    let c = decimal_chars(n);
    if n < 10 {
        assert(c[0] == digit_char(n as int));
        assert(is_ascii_chars(c));
        is_ascii_chars_encode_utf8(c);
        let b = encode_utf8(c);
        assert(b[0] == c[0] as u8);
        assert(b.drop_last().len() == 0);
        assert(b[0] == n + 48);
        assert(ascii_decimal_value(b) == ascii_decimal_value(b.drop_last()) * 10 + (b.last() - 48));
    } else {
        lemma_decimal_text_bytes(n / 10);
        let c0 = decimal_chars(n / 10);
        let d = digit_char((n % 10) as int);
        assert(c == c0.push(d));
        assert forall|i: int| 0 <= i < c.len() implies '\0' <= #[trigger] c[i] <= '\u{7f}' by {
            if i < c0.len() {
                assert(c[i] == c0[i]);
            }
        }
        assert(is_ascii_chars(c));
        is_ascii_chars_encode_utf8(c);
        is_ascii_chars_encode_utf8(c0);
        let b = encode_utf8(c);
        let b0 = encode_utf8(c0);
        assert forall|i: int| 0 <= i < b.len() implies 48 <= #[trigger] b[i] <= 57 by {
            assert(b[i] == c[i] as u8);
            if i < c0.len() {
                assert(c[i] == c0[i]);
                assert(b0[i] == c0[i] as u8);
            }
        }
        assert(b.drop_last() =~= b0) by {
            assert forall|i: int| 0 <= i < b0.len() implies b.drop_last()[i] == b0[i] by {
                assert(b[i] == c[i] as u8);
                assert(c[i] == c0[i]);
                assert(b0[i] == c0[i] as u8);
            }
        }
        assert(b.last() == c[c.len() - 1] as u8);
        assert(c[c.len() - 1] == d);
        assert(b.last() == n % 10 + 48);
        assert(ascii_decimal_value(b) == ascii_decimal_value(b0) * 10 + (n % 10));
        assert((n / 10) * 10 + n % 10 == n);
    }
}

/// Different numbers have different decimal texts.
pub proof fn lemma_decimal_chars_injective(a: nat, b: nat)
    requires
        decimal_chars(a) == decimal_chars(b),
    ensures
        a == b,
{
    lemma_decimal_text_bytes(a);
    lemma_decimal_text_bytes(b);
}

/// Appends the decimal text of `n`.
pub fn push_decimal(s: &mut String, n: u64)
    ensures
        final(s)@ == old(s)@ + decimal_chars(n as nat),
    decreases n,
{
    if n >= 10 {
        push_decimal(s, n / 10);
    }
    let d = (n % 10) as u8;
    s.push((d + 48) as char);
    assert(final(s)@ =~= old(s)@ + decimal_chars(n as nat));
}

/// The decimal text of `n` as a `String`.
pub fn decimal_string(n: u64) -> (s: String)
    ensures
        s@ == decimal_chars(n as nat),
{
    let mut s = String::new();
    push_decimal(&mut s, n);
    assert(s@ =~= decimal_chars(n as nat));
    s
}


/// Whether two strings hold the same characters.
pub fn str_eq(a: &str, b: &str) -> (r: bool)
    ensures
        r == (a@ == b@),
{
    let x = chars_of(a);
    let y = chars_of(b);
    if x.len() != y.len() {
        return false;
    }
    let mut i: usize = 0;
    while i < x.len()
        invariant
            0 <= i <= x@.len(),
            x@.len() == y@.len(),
            x@ == a@,
            y@ == b@,
            forall|j: int| 0 <= j < i ==> x@[j] == y@[j],
        decreases x@.len() - i,
    {
        if x[i] != y[i] {
            return false;
        }
        i = i + 1;
    }
    assert(x@ =~= y@);
    true
}

} // verus!
