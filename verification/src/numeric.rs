//! Decimal numbers written as text: reading them the way std's `FromStr`
//! for the integer types reads them, and writing them the way `Display` does.
use vstd::prelude::*;

use crate::text::{chars_of, string_from_chars};

verus! {

// ---------------------------------------------------------------------------
// Model
// ---------------------------------------------------------------------------

pub open spec fn is_digit(c: char) -> bool {
    '0' <= c && c <= '9'
}

/// The value of an ASCII decimal digit.
pub open spec fn digit_value(c: char) -> nat {
    ((c as int) - ('0' as int)) as nat
}

/// The character that writes the digit `d` (`d < 10`).
pub open spec fn digit_char(d: nat) -> char {
    (d + 48) as char
}

/// Every character is a decimal digit, and there is at least one.
pub open spec fn all_digits(s: Seq<char>) -> bool {
    s.len() > 0 && forall|i: int| 0 <= i < s.len() ==> is_digit(#[trigger] s[i])
}

/// The number written by a string of decimal digits, most significant first.
pub open spec fn digits_value(s: Seq<char>) -> nat
    decreases s.len(),
{
    if s.len() == 0 {
        0
    } else {
        digits_value(s.drop_last()) * 10 + digit_value(s.last())
    }
}

/// The decimal writing of a natural number, without sign or leading zeros.
pub open spec fn decimal(n: nat) -> Seq<char>
    decreases n,
{
    if n < 10 {
        seq![digit_char(n)]
    } else {
        decimal(n / 10).push(digit_char(n % 10))
    }
}

/// The decimal writing of an integer: a `-` in front of a negative one.
pub open spec fn decimal_int(n: int) -> Seq<char> {
    if n < 0 {
        seq!['-'] + decimal((-n) as nat)
    } else {
        decimal(n as nat)
    }
}

/// The digits of an unsigned number after an optional leading `+`.
pub open spec fn unsigned_digits(s: Seq<char>) -> Seq<char> {
    if s.len() > 0 && s[0] == '+' {
        s.drop_first()
    } else {
        s
    }
}

/// What std's `FromStr` for an unsigned integer type with largest value `max`
/// gives: an optional `+`, then one or more digits whose value fits.
pub open spec fn parse_unsigned(s: Seq<char>, max: nat) -> Option<nat> {
    let d = unsigned_digits(s);
    if all_digits(d) && digits_value(d) <= max {
        Some(digits_value(d))
    } else {
        None
    }
}

pub open spec fn spec_parse_u32(s: Seq<char>) -> Option<u32> {
    match parse_unsigned(s, u32::MAX as nat) {
        Some(v) => Some(v as u32),
        None => None,
    }
}

pub open spec fn spec_parse_usize(s: Seq<char>) -> Option<usize> {
    match parse_unsigned(s, usize::MAX as nat) {
        Some(v) => Some(v as usize),
        None => None,
    }
}

/// What std's `FromStr` for `i32` gives: an optional sign, then one or more
/// digits whose signed value fits in `i32`.
pub open spec fn spec_parse_i32(s: Seq<char>) -> Option<i32> {
    if s.len() > 0 && s[0] == '-' {
        let d = s.drop_first();
        if all_digits(d) && digits_value(d) <= 0x8000_0000 {
            Some((-(digits_value(d) as int)) as i32)
        } else {
            None
        }
    } else {
        match parse_unsigned(s, i32::MAX as nat) {
            Some(v) => Some(v as i32),
            None => None,
        }
    }
}

// ---------------------------------------------------------------------------
// Lemmas
// ---------------------------------------------------------------------------

proof fn lemma_digits_value_take_step(s: Seq<char>, k: int)
    requires
        0 <= k < s.len(),
    ensures
        digits_value(s.take(k + 1)) == digits_value(s.take(k)) * 10 + digit_value(s[k]),
{
    assert(s.take(k + 1).drop_last() =~= s.take(k));
}

/// A longer string of digits is worth at least as much as any of its prefixes.
proof fn lemma_digits_value_prefix_le(s: Seq<char>, k: int)
    requires
        0 <= k <= s.len(),
        forall|i: int| 0 <= i < s.len() ==> is_digit(#[trigger] s[i]),
    ensures
        digits_value(s.take(k)) <= digits_value(s),
    decreases s.len() - k,
{
    if k < s.len() {
        lemma_digits_value_take_step(s, k);
        lemma_digits_value_prefix_le(s, k + 1);
        assert(s.take(s.len() as int) =~= s);
    } else {
        assert(s.take(k) =~= s);
    }
}

proof fn lemma_digit_char_value(d: nat)
    requires
        d < 10,
    ensures
        digit_value(digit_char(d)) == d,
        is_digit(digit_char(d)),
        digit_char(d) == '0' <==> d == 0,
{
    assert((d + 48) as char as int == d + 48);
}

pub proof fn lemma_decimal_is_digits(n: nat)
    ensures
        all_digits(decimal(n)),
        digits_value(decimal(n)) == n,
        decimal(n).len() >= 1,
        n > 0 ==> decimal(n)[0] != '0',
    decreases n,
{
    lemma_digit_char_value((n % 10) as nat);
    if n < 10 {
        assert(n % 10 == n);
        assert(decimal(n).drop_last() =~= Seq::<char>::empty());
        assert(digits_value(decimal(n)) == digits_value(Seq::<char>::empty()) * 10 + digit_value(digit_char(n)));
    } else {
        assert((n / 10) * 10 + n % 10 == n);
        lemma_decimal_is_digits(n / 10);
        let d = decimal(n);
        assert(d.drop_last() =~= decimal(n / 10));
        assert forall|i: int| 0 <= i < d.len() implies is_digit(#[trigger] d[i]) by {
            if i < d.len() - 1 {
                assert(d[i] == decimal(n / 10)[i]);
            }
        }
    }
}

// ---------------------------------------------------------------------------
// Writing numbers
// ---------------------------------------------------------------------------

fn digit_to_char(d: u64) -> (c: char)
    requires
        d < 10,
    ensures
        c == digit_char(d as nat),
{
    ((d as u8) + 48u8) as char
}

/// Appends the decimal writing of `n`.
pub(crate) fn push_decimal(out: &mut Vec<char>, n: u64)
    ensures
        final(out)@ == old(out)@ + decimal(n as nat),
    decreases n,
{
    if n >= 10 {
        push_decimal(out, n / 10);
    }
    let c = digit_to_char(n % 10);
    out.push(c);
    proof {
        if n >= 10 {
            assert(decimal(n as nat) == decimal((n / 10) as nat).push(digit_char((n % 10) as nat)));
        }
    }
}

/// Appends the decimal writing of a signed number.
pub(crate) fn push_decimal_i64(out: &mut Vec<char>, n: i64)
    requires
        n > i64::MIN,
    ensures
        final(out)@ == old(out)@ + decimal_int(n as int),
{
    if n < 0 {
        out.push('-');
        let m: u64 = (-n) as u64;
        push_decimal(out, m);
    } else {
        push_decimal(out, n as u64);
    }
}

/// `n` written in decimal, as `u32`'s `to_string` writes it.
pub fn format_u32(n: u32) -> (s: String)
    ensures
        s@ == decimal(n as nat),
{
    let mut v: Vec<char> = Vec::new();
    push_decimal(&mut v, n as u64);
    string_from_chars(v.as_slice())
}

/// `n` written in decimal, as `i32`'s `to_string` writes it.
pub fn format_i32(n: i32) -> (s: String)
    ensures
        s@ == decimal_int(n as int),
{
    let mut v: Vec<char> = Vec::new();
    push_decimal_i64(&mut v, n as i64);
    string_from_chars(v.as_slice())
}

// ---------------------------------------------------------------------------
// Reading numbers
// ---------------------------------------------------------------------------

/// Reads the digits `s[lo..hi]`: their value if they are all digits, there is
/// at least one, and the value is at most `max`.
pub(crate) fn parse_digit_range(s: &Vec<char>, lo: usize, hi: usize, max: u128) -> (r: Option<u128>)
    requires
        lo <= hi <= s.len(),
        max < 0x1_0000_0000_0000_0000,
    ensures
        r == (if all_digits(s@.subrange(lo as int, hi as int)) && digits_value(
            s@.subrange(lo as int, hi as int),
        ) <= max {
            Some(digits_value(s@.subrange(lo as int, hi as int)) as u128)
        } else {
            None::<u128>
        }),
{
    let ghost t = s@.subrange(lo as int, hi as int);
    if lo == hi {
        return None;
    }
    let mut acc: u128 = 0;
    let mut i: usize = lo;
    while i < hi
        invariant
            lo <= i <= hi <= s.len(),
            t == s@.subrange(lo as int, hi as int),
            max < 0x1_0000_0000_0000_0000,
            forall|j: int| 0 <= j < i - lo ==> is_digit(#[trigger] t[j]),
            acc == digits_value(t.take(i - lo)),
            acc <= max,
        decreases hi - i,
    {
        let c = s[i];
        if !('0' <= c && c <= '9') {
            assert(!is_digit(t[i - lo]));
            return None;
        }
        proof {
            lemma_digits_value_take_step(t, i - lo);
        }
        let d: u128 = ((c as u32) - 48) as u128;
        acc = acc * 10 + d;
        i = i + 1;
        if acc > max {
            proof {
                if all_digits(t) {
                    lemma_digits_value_prefix_le(t, i - lo);
                }
            }
            return None;
        }
    }
    assert(t.take(hi - lo) =~= t);
    Some(acc)
}

/// Reads an unsigned number from `s[lo..hi]` as std's `FromStr` does, with
/// largest value `max`.
pub(crate) fn parse_unsigned_range(s: &Vec<char>, lo: usize, hi: usize, max: u128) -> (r: Option<
    u128,
>)
    requires
        lo <= hi <= s.len(),
        max < 0x1_0000_0000_0000_0000,
    ensures
        r == (match parse_unsigned(s@.subrange(lo as int, hi as int), max as nat) {
            Some(v) => Some(v as u128),
            None => None::<u128>,
        }),
{
    let ghost t = s@.subrange(lo as int, hi as int);
    if lo < hi && s[lo] == '+' {
        assert(t.drop_first() =~= s@.subrange(lo + 1, hi as int));
        parse_digit_range(s, lo + 1, hi, max)
    } else {
        parse_digit_range(s, lo, hi, max)
    }
}

pub(crate) fn parse_u32_range(s: &Vec<char>, lo: usize, hi: usize) -> (r: Option<u32>)
    requires
        lo <= hi <= s.len(),
    ensures
        r == spec_parse_u32(s@.subrange(lo as int, hi as int)),
{
    match parse_unsigned_range(s, lo, hi, 0xffff_ffff) {
        Some(v) => Some(v as u32),
        None => None,
    }
}

pub(crate) fn parse_usize_range(s: &Vec<char>, lo: usize, hi: usize) -> (r: Option<usize>)
    requires
        lo <= hi <= s.len(),
    ensures
        r == spec_parse_usize(s@.subrange(lo as int, hi as int)),
{
    let max: u128 = usize::MAX as u128;
    match parse_unsigned_range(s, lo, hi, max) {
        Some(v) => Some(v as usize),
        None => None,
    }
}

pub(crate) fn parse_i32_range(s: &Vec<char>, lo: usize, hi: usize) -> (r: Option<i32>)
    requires
        lo <= hi <= s.len(),
    ensures
        r == spec_parse_i32(s@.subrange(lo as int, hi as int)),
{
    let ghost t = s@.subrange(lo as int, hi as int);
    if lo < hi && s[lo] == '-' {
        assert(t.drop_first() =~= s@.subrange(lo + 1, hi as int));
        match parse_digit_range(s, lo + 1, hi, 0x8000_0000) {
            Some(v) => {
                let m: i64 = v as i64;
                Some((-m) as i32)
            },
            None => None,
        }
    } else {
        match parse_unsigned_range(s, lo, hi, 0x7fff_ffff) {
            Some(v) => Some(v as i32),
            None => None,
        }
    }
}

/// Reads a `u32` as `s.parse::<u32>().ok()` does.
pub fn parse_u32(s: &str) -> (r: Option<u32>)
    ensures
        r == spec_parse_u32(s@),
{
    let v = chars_of(s);
    assert(v@.subrange(0, v@.len() as int) =~= v@);
    parse_u32_range(&v, 0, v.len())
}

/// Reads an `i32` as `s.parse::<i32>().ok()` does.
pub fn parse_i32(s: &str) -> (r: Option<i32>)
    ensures
        r == spec_parse_i32(s@),
{
    let v = chars_of(s);
    assert(v@.subrange(0, v@.len() as int) =~= v@);
    parse_i32_range(&v, 0, v.len())
}

// ---------------------------------------------------------------------------
// Laws
// ---------------------------------------------------------------------------

/// Reading back what `format_u32` writes gives the number written.
pub proof fn lemma_u32_round_trip(n: u32)
    ensures
        spec_parse_u32(decimal(n as nat)) == Some(n),
{
    lemma_decimal_is_digits(n as nat);
    let d = decimal(n as nat);
    assert(is_digit(d[0]));
}

/// Reading back what `format_i32` writes gives the number written.
pub proof fn lemma_i32_round_trip(n: i32)
    ensures
        spec_parse_i32(decimal_int(n as int)) == Some(n),
{
    if n < 0 {
        let m = (-(n as int)) as nat;
        lemma_decimal_is_digits(m);
        let s = decimal_int(n as int);
        assert(s.drop_first() =~= decimal(m));
    } else {
        lemma_decimal_is_digits(n as nat);
        let d = decimal(n as nat);
        assert(is_digit(d[0]));
    }
}

} // verus!
