//! Text that comes out of files.
//!
//! Conversions between bytes and text, and the trimming of white space, are taken
//! from the standard library; everything else in this crate works on bytes or on
//! characters.

use vstd::prelude::*;
use vstd::utf8::{decode_utf8, valid_utf8};

verus! {

/// The text `String::from_utf8_lossy` makes of a byte run that is not UTF-8.
pub uninterp spec fn lossy_utf8(bytes: Seq<u8>) -> Seq<char>;

/// The text of a byte run: what it encodes where it is UTF-8, and a text with
/// replacement characters where it is not.
pub open spec fn text_of(bytes: Seq<u8>) -> Seq<char> {
    if valid_utf8(bytes) {
        decode_utf8(bytes)
    } else {
        lossy_utf8(bytes)
    }
}

/// `String::from_utf8_lossy`: valid UTF-8 decodes to exactly the text it encodes,
/// and anything else to a text that depends on the bytes alone. Which replacement
/// characters stand where in that text is not stated.
#[verifier::external_body]
pub(crate) fn decode_lossy(bytes: &[u8]) -> (s: String)
    ensures
        s@ == if valid_utf8(bytes@) {
            decode_utf8(bytes@)
        } else {
            lossy_utf8(bytes@)
        },
{
    String::from_utf8_lossy(bytes).into_owned()
}

/// Whether a UTF-16 code unit is the first of two.
pub open spec fn leads_a_pair(u: u16) -> bool {
    0xd800 <= u <= 0xdbff
}

/// Whether a UTF-16 code unit is the second of two.
pub open spec fn ends_a_pair(u: u16) -> bool {
    0xdc00 <= u <= 0xdfff
}

/// The text of a run of UTF-16 code units, with U+FFFD for every surrogate that is not
/// half of a pair.
pub open spec fn lossy_utf16(units: Seq<u16>) -> Seq<char>
    decreases units.len(),
{
    if units.len() == 0 {
        seq![]
    } else {
        let a = units[0];
        if !leads_a_pair(a) && !ends_a_pair(a) {
            seq![a as char] + lossy_utf16(units.skip(1))
        } else if leads_a_pair(a) && units.len() > 1 && ends_a_pair(units[1]) {
            let c = 0x10000 + (a - 0xd800) * 0x400 + (units[1] - 0xdc00);
            seq![c as char] + lossy_utf16(units.skip(2))
        } else {
            seq!['\u{fffd}'] + lossy_utf16(units.skip(1))
        }
    }
}

/// `String::from_utf16_lossy`: every code unit, or pair of surrogates, is the character it
/// encodes, and a surrogate that is not half of a pair is replaced by U+FFFD.
#[verifier::external_body]
pub(crate) fn decode_utf16_lossy(units: &[u16]) -> (s: String)
    ensures
        s@ == lossy_utf16(units@),
{
    String::from_utf16_lossy(units)
}

/// `core::str::from_utf8`: succeeds exactly on valid UTF-8, with the text those
/// bytes encode.
#[verifier::external_body]
pub(crate) fn utf8_text(bytes: &[u8]) -> (s: Option<&str>)
    ensures
        s is Some <==> valid_utf8(bytes@),
        s matches Some(t) ==> t@ == decode_utf8(bytes@),
{
    core::str::from_utf8(bytes).ok()
}

/// Unicode's `White_Space` property.
pub open spec fn white_space(c: char) -> bool {
    let v = c as u32;
    ||| 0x09 <= v <= 0x0d
    ||| v == 0x20
    ||| v == 0x85
    ||| v == 0xa0
    ||| v == 0x1680
    ||| 0x2000 <= v <= 0x200a
    ||| v == 0x2028
    ||| v == 0x2029
    ||| v == 0x202f
    ||| v == 0x205f
    ||| v == 0x3000
}

/// Text without the white space at its end.
pub open spec fn trimmed_end(t: Seq<char>) -> Seq<char>
    decreases t.len(),
{
    if t.len() > 0 && white_space(t.last()) {
        trimmed_end(t.drop_last())
    } else {
        t
    }
}

/// Text without the white space at its start.
pub open spec fn trimmed_start(t: Seq<char>) -> Seq<char>
    decreases t.len(),
{
    if t.len() > 0 && white_space(t[0]) {
        trimmed_start(t.skip(1))
    } else {
        t
    }
}

/// Text without the white space at either end.
pub open spec fn trimmed(t: Seq<char>) -> Seq<char> {
    trimmed_end(trimmed_start(t))
}

/// `str::trim_end`: removes the longest run of `White_Space` characters at the end.
#[verifier::external_body]
pub(crate) fn trim_end(s: &str) -> (r: &str)
    ensures
        r@ == trimmed_end(s@),
{
    s.trim_end()
}

/// `str::trim`: removes the longest runs of `White_Space` characters at the start and
/// at the end.
#[verifier::external_body]
pub(crate) fn trim(s: &str) -> (r: &str)
    ensures
        r@ == trimmed(s@),
{
    s.trim()
}

/// A character with an ASCII capital made small.
pub open spec fn lower(c: char) -> char {
    if 'A' <= c && c <= 'Z' {
        ((c as int) + 32) as char
    } else {
        c
    }
}

/// Text with its ASCII capitals made small.
pub open spec fn lowered(t: Seq<char>) -> Seq<char> {
    Seq::new(t.len(), |i: int| lower(t[i]))
}

/// `str::to_ascii_lowercase`: a copy in which the ASCII letters `A` to `Z` are mapped to
/// `a` to `z` and everything else is as it was.
#[verifier::external_body]
pub(crate) fn to_lower(s: &str) -> (r: String)
    ensures
        r@ == lowered(s@),
{
    s.to_ascii_lowercase()
}

/// A text in quotes, as `str`'s `Debug` writes it.
pub uninterp spec fn quoted(t: Seq<char>) -> Seq<char>;

/// The `Debug` text of a `str`, through `format`: the text in quotes, which depends on the
/// text alone. Which characters are escaped, and how, is not stated.
#[verifier::external_body]
pub(crate) fn quote(t: &str) -> (r: String)
    ensures
        r@ == quoted(t@),
{
    format!("{t:?}")
}

/// The decimal digit of a number below ten.
pub open spec fn digit(n: int) -> char {
    (48 + n) as char
}

/// A number written in decimal.
pub open spec fn decimal(n: nat) -> Seq<char>
    decreases n,
{
    if n < 10 {
        seq![digit(n as int)]
    } else {
        decimal(n / 10).push(digit(n as int % 10))
    }
}

fn digit_text(n: u64) -> (s: &'static str)
    requires
        n < 10,
    ensures
        s@ == seq![digit(n as int)],
{
    proof {
        reveal_strlit("0");
        reveal_strlit("1");
        reveal_strlit("2");
        reveal_strlit("3");
        reveal_strlit("4");
        reveal_strlit("5");
        reveal_strlit("6");
        reveal_strlit("7");
        reveal_strlit("8");
        reveal_strlit("9");
    }
    let s = match n {
        0 => "0",
        1 => "1",
        2 => "2",
        3 => "3",
        4 => "4",
        5 => "5",
        6 => "6",
        7 => "7",
        8 => "8",
        _ => "9",
    };
    assert(s@ =~= seq![digit(n as int)]);
    s
}

/// Writes a number in decimal.
pub fn decimal_text(n: u64) -> (s: String)
    ensures
        s@ == decimal(n as nat),
{
    wide_decimal_text(n as u128)
}

/// Writes a number of up to 128 bits in decimal.
pub fn wide_decimal_text(n: u128) -> (s: String)
    ensures
        s@ == decimal(n as nat),
    decreases n,
{
    if n < 10 {
        digit_text(n as u64).to_owned()
    } else {
        let mut s = wide_decimal_text(n / 10);
        s.append(digit_text((n % 10) as u64));
        assert(s@ =~= decimal(n as nat));
        s
    }
}

/// The hexadecimal digit of a number below sixteen.
pub open spec fn hex_digit(n: int) -> char {
    if n < 10 {
        digit(n)
    } else {
        (87 + n) as char
    }
}

fn hex_digit_text(n: u8) -> (s: &'static str)
    requires
        n < 16,
    ensures
        s@ == seq![hex_digit(n as int)],
{
    if n < 10 {
        return digit_text(n as u64);
    }
    proof {
        reveal_strlit("a");
        reveal_strlit("b");
        reveal_strlit("c");
        reveal_strlit("d");
        reveal_strlit("e");
        reveal_strlit("f");
    }
    let s = match n {
        10 => "a",
        11 => "b",
        12 => "c",
        13 => "d",
        14 => "e",
        _ => "f",
    };
    assert(s@ =~= seq![hex_digit(n as int)]);
    s
}

/// The first `n` of some bytes as pairs of hexadecimal digits, with spaces between them.
pub open spec fn hex_pairs(b: Seq<u8>, n: int) -> Seq<char>
    decreases n,
{
    if n <= 0 {
        seq![]
    } else {
        hex_pairs(b, n - 1) + (if n == 1 {
            seq![]
        } else {
            " "@
        }) + seq![hex_digit(b[n - 1] as int / 16)] + seq![hex_digit(b[n - 1] as int % 16)]
    }
}

/// Writes the first `n` of some bytes as pairs of hexadecimal digits, with spaces between
/// them.
pub fn hex_text(b: &[u8], n: usize) -> (s: String)
    requires
        n <= b@.len(),
    ensures
        s@ == hex_pairs(b@, n as int),
{
    let mut s = "".to_owned();
    proof {
        reveal_strlit("");
        assert(s@ =~= hex_pairs(b@, 0));
    }
    let mut i: usize = 0;
    while i < n
        invariant
            i <= n <= b@.len(),
            s@ == hex_pairs(b@, i as int),
        decreases n - i,
    {
        let ghost before = s@;
        if i > 0 {
            s.append(" ");
        }
        s.append(hex_digit_text(b[i] / 16));
        s.append(hex_digit_text(b[i] % 16));
        assert(s@ =~= hex_pairs(b@, i + 1));
        i = i + 1;
    }
    s
}

/// The first `n` of some numbers in decimal, with a comma and a space between them.
pub open spec fn listed(v: Seq<u32>, n: int) -> Seq<char>
    decreases n,
{
    if n <= 0 {
        seq![]
    } else {
        listed(v, n - 1) + (if n == 1 {
            seq![]
        } else {
            ", "@
        }) + decimal(v[n - 1] as nat)
    }
}

/// Writes numbers in decimal, with a comma and a space between them.
pub fn list_text(v: &Vec<u32>) -> (s: String)
    ensures
        s@ == listed(v@, v@.len() as int),
{
    let mut s = "".to_owned();
    proof {
        reveal_strlit("");
        assert(s@ =~= listed(v@, 0));
    }
    let mut i: usize = 0;
    while i < v.len()
        invariant
            i <= v@.len(),
            s@ == listed(v@, i as int),
        decreases v@.len() - i,
    {
        if i > 0 {
            s.append(", ");
        }
        let t = wide_decimal_text(v[i] as u128);
        s.append(t.as_str());
        assert(s@ =~= listed(v@, i + 1));
        i = i + 1;
    }
    s
}

/// A number between two texts.
pub open spec fn around(before: Seq<char>, n: nat, after: Seq<char>) -> Seq<char> {
    before + decimal(n) + after
}

/// Puts a number between two texts.
pub fn put_around(before: &str, n: u128, after: &str) -> (s: String)
    ensures
        s@ == around(before@, n as nat, after@),
{
    let number = wide_decimal_text(n);
    let mut s = join_text(before, number.as_str());
    s.append(after);
    s
}

/// A number of ten-thousandths as a decimal with four places.
pub open spec fn four_places(n: nat) -> Seq<char> {
    decimal(n / 10000) + "."@ + seq![digit(n as int / 1000 % 10)] + seq![
        digit(n as int / 100 % 10),
    ] + seq![digit(n as int / 10 % 10)] + seq![digit(n as int % 10)]
}

/// Writes a number of ten-thousandths as a decimal with four places.
pub fn four_places_text(n: u64) -> (s: String)
    ensures
        s@ == four_places(n as nat),
{
    let mut s = wide_decimal_text((n / 10000) as u128);
    s.append(".");
    s.append(digit_text(n / 1000 % 10));
    s.append(digit_text(n / 100 % 10));
    s.append(digit_text(n / 10 % 10));
    s.append(digit_text(n % 10));
    s
}

/// Puts texts together.
pub fn join_text(a: &str, b: &str) -> (s: String)
    ensures
        s@ == a@ + b@,
{
    let mut s = a.to_owned();
    s.append(b);
    s
}

} // verus!
