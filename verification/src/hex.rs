//! The `#rrggbb` notation: its grammar, and the digits it is made of.

use regex::Regex;
use vstd::prelude::*;
use vstd::string::StrSliceExecFns;

verus! {

/// The regular expression that a colour in hexadecimal notation starts with.
pub const HEX_PATTERN: &'static str = "^#[A-Fa-f0-9]{6}";

/// `c` is one of `0-9`, `a-f`, `A-F`.
pub open spec fn is_hex_digit(c: char) -> bool {
    ('0' <= c <= '9') || ('a' <= c <= 'f') || ('A' <= c <= 'F')
}

/// The number that a hexadecimal digit stands for.
pub open spec fn hex_value(c: char) -> int {
    if '0' <= c <= '9' {
        c as int - '0' as int
    } else if 'a' <= c <= 'f' {
        c as int - 'a' as int + 10
    } else {
        c as int - 'A' as int + 10
    }
}

/// The lower-case hexadecimal digit for a number below sixteen.
pub open spec fn hex_digit(v: int) -> char {
    if v < 10 {
        ('0' as int + v) as char
    } else {
        ('a' as int + v - 10) as char
    }
}

/// An ASCII upper-case letter turned into lower case; any other character
/// unchanged.
pub open spec fn to_lower(c: char) -> char {
    if 'A' <= c <= 'Z' {
        (c as int + 32) as char
    } else {
        c
    }
}

/// The text starts with `#` and six hexadecimal digits. What follows them is
/// not looked at.
pub open spec fn has_hex_prefix(s: Seq<char>) -> bool {
    &&& s.len() >= 7
    &&& s[0] == '#'
    &&& forall|i: int| 1 <= i < 7 ==> is_hex_digit(#[trigger] s[i])
}

/// The byte written as the two hexadecimal digits `hi` and `lo`.
pub open spec fn hex_byte(hi: char, lo: char) -> u8 {
    (16 * hex_value(hi) + hex_value(lo)) as u8
}

/// The two lower-case hexadecimal digits of a byte.
pub open spec fn byte_digits(v: u8) -> Seq<char> {
    seq![hex_digit(v as int / 16), hex_digit(v as int % 16)]
}

/// Decodes one hexadecimal digit.
pub fn hex_digit_value(c: char) -> (v: u8)
    requires
        is_hex_digit(c),
    ensures
        v == hex_value(c),
        v < 16,
{
    if '0' <= c && c <= '9' {
        (c as u8) - ('0' as u8)
    } else if 'a' <= c && c <= 'f' {
        (c as u8) - ('a' as u8) + 10
    } else {
        (c as u8) - ('A' as u8) + 10
    }
}

/// Decodes the byte written as the two hexadecimal digits `hi` and `lo`.
pub fn decode_hex_byte(hi: char, lo: char) -> (v: u8)
    requires
        is_hex_digit(hi),
        is_hex_digit(lo),
    ensures
        v == hex_byte(hi, lo),
{
    16 * hex_digit_value(hi) + hex_digit_value(lo)
}

/// The lower-case hexadecimal digit for `v`, as a one-character string.
pub fn hex_digit_str(v: u8) -> (s: &'static str)
    requires
        v < 16,
    ensures
        s@ == seq![hex_digit(v as int)],
{
    let digits = "0123456789abcdef";
    proof {
        reveal_strlit("0123456789abcdef");
    }
    digits.substring_ascii(v as usize, v as usize + 1)
}

/// Compiles `pattern` with `regex::Regex::new` and searches `text` with
/// `Regex::is_match`.
///
/// Trusted: the one pattern admitted here, [`HEX_PATTERN`], is anchored at
/// the start of the text and then asks for `#` and six characters of the
/// class `[A-Fa-f0-9]`, so the search succeeds exactly on the texts that
/// start that way. The pattern is well formed, so compiling it does not fail.
#[verifier::external_body]
pub(crate) fn regex_is_match(pattern: &str, text: &str) -> (found: bool)
    requires
        pattern@ == HEX_PATTERN@,
    ensures
        found == has_hex_prefix(text@),
{
    Regex::new(pattern).unwrap().is_match(text)
}

/// Reading a hexadecimal digit and writing its value again gives the digit
/// in lower case.
pub proof fn lemma_digit_round_trip(c: char)
    requires
        is_hex_digit(c),
    ensures
        0 <= hex_value(c) < 16,
        hex_digit(hex_value(c)) == to_lower(c),
{
}

/// Reading the two digits of a byte and writing the byte again gives the two
/// digits in lower case.
pub proof fn lemma_byte_round_trip(hi: char, lo: char)
    requires
        is_hex_digit(hi),
        is_hex_digit(lo),
    ensures
        byte_digits(hex_byte(hi, lo)) == seq![to_lower(hi), to_lower(lo)],
{
    lemma_digit_round_trip(hi);
    lemma_digit_round_trip(lo);
    let v = 16 * hex_value(hi) + hex_value(lo);
    assert(v / 16 == hex_value(hi) && v % 16 == hex_value(lo));
}

/// Writing a byte as two digits and reading them again gives the byte.
pub proof fn lemma_digits_decode(v: u8)
    ensures
        is_hex_digit(byte_digits(v)[0]),
        is_hex_digit(byte_digits(v)[1]),
        hex_byte(byte_digits(v)[0], byte_digits(v)[1]) == v,
{
    let hi = v as int / 16;
    let lo = v as int % 16;
    assert(0 <= hi < 16 && 0 <= lo < 16);
    assert(hex_value(hex_digit(hi)) == hi);
    assert(hex_value(hex_digit(lo)) == lo);
}

} // verus!
