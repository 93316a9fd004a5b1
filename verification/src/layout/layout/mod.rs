//! List marker text: bullets and the decimal, alphabetic and roman
//! counters.

pub mod list_style;

use vstd::prelude::*;
use crate::text::{chars_of, push_char, push_signed_decimal, push_str, signed_decimal};

verus! {

/// Integer division rounding toward zero (Rust's `/` on signed integers).
pub open spec fn tdiv(a: int, b: int) -> int {
    if a >= 0 {
        a / b
    } else {
        -((-a) / b)
    }
}

/// The remainder of [`tdiv`] (Rust's `%` on signed integers).
pub open spec fn trem(a: int, b: int) -> int {
    a - b * tdiv(a, b)
}

/// The letters of the alphabetic counter for `v = value - 1`: the last
/// letter is `a + v % 26`, the rest is the counter for `v / 26 - 1` while
/// that is non-negative.
pub open spec fn alpha_spec(v: int) -> Seq<char>
    decreases (if v >= 0 { v } else { 0 }),
{
    let c = (97 + trem(v, 26)) as char;
    let next = tdiv(v, 26) - 1;
    if next < 0 {
        seq![c]
    } else {
        proof {
            assert(v / 26 <= v) by (nonlinear_arith)
                requires
                    v >= 0,
            ;
        }
        alpha_spec(next) + seq![c]
    }
}

/// The value of the `k`-th roman numeral table entry.
pub open spec fn roman_value(k: int) -> int {
    if k == 0 { 1000 }
    else if k == 1 { 900 }
    else if k == 2 { 500 }
    else if k == 3 { 400 }
    else if k == 4 { 100 }
    else if k == 5 { 90 }
    else if k == 6 { 50 }
    else if k == 7 { 40 }
    else if k == 8 { 10 }
    else if k == 9 { 9 }
    else if k == 10 { 5 }
    else if k == 11 { 4 }
    else { 1 }
}

/// The symbol of the `k`-th roman numeral table entry.
pub open spec fn roman_symbol(k: int) -> Seq<char> {
    if k == 0 { "m"@ }
    else if k == 1 { "cm"@ }
    else if k == 2 { "d"@ }
    else if k == 3 { "cd"@ }
    else if k == 4 { "c"@ }
    else if k == 5 { "xc"@ }
    else if k == 6 { "l"@ }
    else if k == 7 { "xl"@ }
    else if k == 8 { "x"@ }
    else if k == 9 { "ix"@ }
    else if k == 10 { "v"@ }
    else if k == 11 { "iv"@ }
    else { "i"@ }
}

/// The greedy roman spelling of `v` using table entries `k..13`: each
/// entry is taken as often as it fits, largest first.
pub open spec fn roman_from(v: int, k: int) -> Seq<char>
    decreases 13 - k, (if v >= 0 { v } else { 0 }),
{
    if k >= 13 || k < 0 {
        Seq::empty()
    } else if v >= roman_value(k) {
        roman_symbol(k) + roman_from(v - roman_value(k), k)
    } else {
        roman_from(v, k + 1)
    }
}

/// The roman counter: the greedy spelling for positive values, the
/// decimal spelling otherwise.
pub open spec fn roman_spec(value: int) -> Seq<char> {
    if value <= 0 {
        signed_decimal(value)
    } else {
        roman_from(value, 0)
    }
}

/// The ASCII uppercase of a character (other characters unchanged).
pub open spec fn upper_char(c: char) -> char {
    if 'a' <= c && c <= 'z' {
        ((c as int) - 32) as char
    } else {
        c
    }
}

/// The ASCII uppercase of a text.
pub open spec fn upper(s: Seq<char>) -> Seq<char> {
    s.map_values(|c: char| upper_char(c))
}

/// The marker text for a list style and counter value.
pub open spec fn marker_spec(style: u8, value: i64) -> Seq<char> {
    if style == 1 {
        seq!['\u{2022}']
    } else if style == 2 {
        seq!['\u{25e6}']
    } else if style == 3 {
        seq!['\u{25aa}']
    } else if style == 4 {
        signed_decimal(value as int).push('.')
    } else if style == 5 {
        alpha_spec(value - 1).push('.')
    } else if style == 6 {
        upper(alpha_spec(value - 1)).push('.')
    } else if style == 7 {
        roman_spec(value as int).push('.')
    } else if style == 8 {
        upper(roman_spec(value as int)).push('.')
    } else {
        Seq::empty()
    }
}

/// A `String` holding the given characters.
fn string_of(chars: &Vec<char>) -> (r: String)
    ensures
        r@ == chars@,
{
    let mut out = String::new();
    let mut i: usize = 0;
    while i < chars.len()
        invariant
            i <= chars@.len(),
            out@ == chars@.take(i as int),
        decreases chars@.len() - i,
    {
        push_char(&mut out, chars[i]);
        assert(chars@.take((i + 1) as int) =~= chars@.take(i as int).push(chars@[i as int]));
        i = i + 1;
    }
    assert(chars@.take(chars@.len() as int) =~= chars@);
    out
}

/// The ASCII uppercase of a string.
fn ascii_uppercase(s: &String) -> (r: String)
    ensures
        r@ == upper(s@),
{
    let chars = chars_of(s.as_str());
    let mut out = String::new();
    let mut i: usize = 0;
    while i < chars.len()
        invariant
            chars@ == s@,
            i <= chars@.len(),
            out@ == upper(chars@.take(i as int)),
        decreases chars@.len() - i,
    {
        let c = chars[i];
        let u = if 'a' <= c && c <= 'z' {
            (((c as u32) - 32) as u8) as char
        } else {
            c
        };
        push_char(&mut out, u);
        assert(upper(chars@.take((i + 1) as int)) =~= upper(chars@.take(i as int)).push(upper_char(c)));
        i = i + 1;
    }
    assert(chars@.take(chars@.len() as int) =~= chars@);
    out
}

/// One digit of the alphabetic counter: the letter for `v % 26` and the
/// next value `v / 26 - 1` (Rust's truncating operators).
fn alpha_step(v: i64) -> (r: (char, i64))
    ensures
        r.0 == (97 + trem(v as int, 26)) as char,
        r.1 == tdiv(v as int, 26) - 1,
{
    if v >= 0 {
        let q = v / 26;
        let m = v % 26;
        ((97 + m as u8) as char, q - 1)
    } else {
        let w: i128 = -(v as i128);
        let q: i64 = (w / 26) as i64;
        let m: u8 = (w % 26) as u8;
        ((97 - m) as char, -q - 1)
    }
}

/// The lowercase alphabetic counter (`1 → a`, `26 → z`, `27 → aa`); values
/// below 1 follow the same truncating arithmetic.
pub fn to_alpha(value: i64) -> (r: String)
    requires
        value > i64::MIN,
    ensures
        r@ == alpha_spec(value - 1),
{
    let mut v: i64 = value - 1;
    let mut out: Vec<char> = Vec::new();
    loop
        invariant_except_break
            alpha_spec(value - 1) == alpha_spec(v as int) + out@,
        ensures
            alpha_spec(value - 1) == out@,
        decreases (if v >= 0 { v as int } else { 0 }),
    {
        let (c, next) = alpha_step(v);
        out.insert(0, c);
        if next < 0 {
            break;
        }
        proof {
            assert(alpha_spec(v as int) == alpha_spec(next as int) + seq![c]);
            assert(alpha_spec(next as int) + seq![c] + out@.drop_first() =~= alpha_spec(next as int) + out@);
            assert(v as int / 26 <= v) by (nonlinear_arith)
                requires
                    v >= 0,
            ;
        }
        v = next;
    }
    string_of(&out)
}

/// The `k`-th roman numeral table entry.
fn roman_entry(k: usize) -> (r: (i64, &'static str))
    requires
        k < 13,
    ensures
        r.0 == roman_value(k as int),
        r.1@ == roman_symbol(k as int),
{
    match k {
        0 => (1000, "m"),
        1 => (900, "cm"),
        2 => (500, "d"),
        3 => (400, "cd"),
        4 => (100, "c"),
        5 => (90, "xc"),
        6 => (50, "l"),
        7 => (40, "xl"),
        8 => (10, "x"),
        9 => (9, "ix"),
        10 => (5, "v"),
        11 => (4, "iv"),
        _ => (1, "i"),
    }
}

/// The lowercase roman-numeral counter (`4 → iv`, `49 → xlix`); values
/// below 1 are spelled in decimal.
pub fn to_roman(value: i64) -> (r: String)
    ensures
        r@ == roman_spec(value as int),
{
    let mut out = String::new();
    if value <= 0 {
        push_signed_decimal(&mut out, value);
        return out;
    }
    let mut v = value;
    let mut k: usize = 0;
    while k < 13
        invariant
            k <= 13,
            v >= 0,
            roman_from(value as int, 0) == out@ + roman_from(v as int, k as int),
        decreases 13 - k,
    {
        let (n, s) = roman_entry(k);
        while v >= n
            invariant
                k < 13,
                n == roman_value(k as int),
                s@ == roman_symbol(k as int),
                v >= 0,
                roman_from(value as int, 0) == out@ + roman_from(v as int, k as int),
            decreases v,
        {
            let ghost before = out@;
            push_str(&mut out, s);
            v = v - n;
            assert(before + (s@ + roman_from(v as int, k as int)) =~= out@ + roman_from(v as int, k as int));
        }
        k = k + 1;
    }
    out
}

/// Marker text for a list style and value.
pub fn list_marker_text(style: u8, value: i64) -> (r: String)
    requires
        style == list_style::LOWER_ALPHA || style == list_style::UPPER_ALPHA ==> value > i64::MIN,
    ensures
        r@ == marker_spec(style, value),
{
    let mut out = String::new();
    if style == list_style::DISC {
        push_char(&mut out, '\u{2022}');
    } else if style == list_style::CIRCLE {
        push_char(&mut out, '\u{25e6}');
    } else if style == list_style::SQUARE {
        push_char(&mut out, '\u{25aa}');
    } else if style == list_style::DECIMAL {
        push_signed_decimal(&mut out, value);
        push_char(&mut out, '.');
    } else if style == list_style::LOWER_ALPHA {
        out = to_alpha(value);
        push_char(&mut out, '.');
    } else if style == list_style::UPPER_ALPHA {
        let lower = to_alpha(value);
        out = ascii_uppercase(&lower);
        push_char(&mut out, '.');
    } else if style == list_style::LOWER_ROMAN {
        out = to_roman(value);
        push_char(&mut out, '.');
    } else if style == list_style::UPPER_ROMAN {
        let lower = to_roman(value);
        out = ascii_uppercase(&lower);
        push_char(&mut out, '.');
    }
    assert(out@ =~= marker_spec(style, value));
    out
}

} // verus!
