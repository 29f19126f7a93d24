//! Reading decimal integers from text, as `str::parse` does for the integer
//! types: an optional sign, then one or more ASCII digits, in range.
use vstd::prelude::*;
use crate::text::{decimal, digit_char};

verus! {

/// An ASCII decimal digit (`char::is_digit(10)`).
pub open spec fn is_digit(c: char) -> bool {
    '0' <= c <= '9'
}

/// The value of the ASCII digit `c`.
pub open spec fn digit_value(c: char) -> nat {
    (c as u32 - '0' as u32) as nat
}

/// Every character of `s` is an ASCII digit.
pub open spec fn all_digits(s: Seq<char>) -> bool {
    forall|i: int| 0 <= i < s.len() ==> is_digit(#[trigger] s[i])
}

/// The value of the digit string `s` (0 for the empty string).
pub open spec fn digits_value(s: Seq<char>) -> nat
    decreases s.len(),
{
    if s.len() == 0 {
        0
    } else {
        digits_value(s.drop_last()) * 10 + digit_value(s.last())
    }
}

/// What `str::parse` gives for an integer type with values `lo..=hi`, which
/// accepts a leading `-` when `signed`: `None` where it reports an error.
pub open spec fn parse_integer(s: Seq<char>, signed: bool, lo: int, hi: int) -> Option<int> {
    if s.len() == 0 {
        None
    } else if (s[0] == '+' || s[0] == '-') && s.len() == 1 {
        None
    } else {
        let neg = signed && s[0] == '-';
        let digits = if s[0] == '+' || neg { s.skip(1) } else { s };
        let v: int = if neg { -(digits_value(digits) as int) } else { digits_value(digits) as int };
        if all_digits(digits) && lo <= v <= hi {
            Some(v)
        } else {
            None
        }
    }
}

/// `str::parse::<u8>`.
pub open spec fn parse_u8(s: Seq<char>) -> Option<int> {
    parse_integer(s, false, 0, 255)
}

/// `str::parse::<i32>`.
pub open spec fn parse_i32(s: Seq<char>) -> Option<int> {
    parse_integer(s, true, -2147483648, 2147483647)
}

/// Digit strings grow in value as digits are appended.
proof fn lemma_digits_value_grows(s: Seq<char>, i: int, j: int)
    requires
        0 <= i <= j <= s.len(),
    ensures
        digits_value(s.take(i)) <= digits_value(s.take(j)),
    decreases j - i,
{
    if i < j {
        lemma_digits_value_grows(s, i, j - 1);
        assert(s.take(j).drop_last() =~= s.take(j - 1));
    }
}

/// Reads the digits of `s` from `start`, giving up once the value passes
/// `cap`: returns whether all are digits and the value when it is at most
/// `cap`.
fn read_digits(s: &Vec<char>, start: usize, cap: u64) -> (r: (bool, Option<u64>))
    requires
        start <= s.len(),
        cap <= 4294967296,
    ensures
        r.0 == all_digits(s@.skip(start as int)),
        r.0 ==> (match r.1 {
            Some(v) => v == digits_value(s@.skip(start as int)) && v <= cap,
            None => digits_value(s@.skip(start as int)) > cap,
        }),
{
    let ghost d = s@.skip(start as int);
    let mut i = start;
    while i < s.len()
        invariant
            start <= i <= s.len(),
            d == s@.skip(start as int),
            forall|k: int| 0 <= k < i - start ==> is_digit(#[trigger] d[k]),
        decreases s.len() - i,
    {
        let c = s[i];
        if !('0' <= c && c <= '9') {
            assert(!is_digit(d[i - start]));
            return (false, None);
        }
        i = i + 1;
    }
    let mut v: u64 = 0;
    let mut j = start;
    while j < s.len()
        invariant
            start <= j <= s.len(),
            d == s@.skip(start as int),
            all_digits(d),
            v <= cap,
            v == digits_value(d.take(j - start)),
            cap <= 4294967296,
        decreases s.len() - j,
    {
        let c = s[j];
        assert(d[j - start] == c);
        let dv = (c as u32 - '0' as u32) as u64;
        assert(d.take(j - start + 1).drop_last() =~= d.take(j - start));
        if v * 10 + dv > cap {
            proof {
                assert(digits_value(d.take(j - start + 1)) == v * 10 + dv);
                lemma_digits_value_grows(d, j - start + 1, d.len() as int);
                assert(d.take(d.len() as int) =~= d);
            }
            return (true, None);
        }
        v = v * 10 + dv;
        j = j + 1;
    }
    assert(d.take(d.len() as int) =~= d);
    (true, Some(v))
}

/// `str::parse` for an integer type with values `lo..=hi`.
fn parse_integer_exec(s: &Vec<char>, signed: bool, lo: i64, hi: i64) -> (r: Option<i64>)
    requires
        -2147483648 <= lo <= 0 <= hi <= 2147483647,
    ensures
        match r {
            Some(v) => parse_integer(s@, signed, lo as int, hi as int) == Some(v as int),
            None => parse_integer(s@, signed, lo as int, hi as int) is None,
        },
{
    if s.len() == 0 {
        return None;
    }
    if (s[0] == '+' || s[0] == '-') && s.len() == 1 {
        return None;
    }
    let neg = signed && s[0] == '-';
    let start: usize = if s[0] == '+' || neg { 1 } else { 0 };
    assert(s@.skip(0) =~= s@);
    let cap: u64 = if neg { (0 - lo) as u64 } else { hi as u64 };
    let (ok, v) = read_digits(s, start, cap);
    if !ok {
        return None;
    }
    match v {
        None => None,
        Some(v) => {
            if neg {
                Some(0 - (v as i64))
            } else {
                Some(v as i64)
            }
        },
    }
}

/// `str::parse::<u8>`: the value of `s` read as a `u8`, if it is one.
pub fn parse_u8_exec(s: &Vec<char>) -> (r: Option<u8>)
    ensures
        match r {
            Some(v) => parse_u8(s@) == Some(v as int),
            None => parse_u8(s@) is None,
        },
{
    match parse_integer_exec(s, false, 0, 255) {
        Some(v) => Some(v as u8),
        None => None,
    }
}

/// `str::parse::<i32>`: the value of `s` read as an `i32`, if it is one.
pub fn parse_i32_exec(s: &Vec<char>) -> (r: Option<i32>)
    ensures
        match r {
            Some(v) => parse_i32(s@) == Some(v as int),
            None => parse_i32(s@) is None,
        },
{
    match parse_integer_exec(s, true, -2147483648, 2147483647) {
        Some(v) => Some(v as i32),
        None => None,
    }
}

/// A decimal numeral reads back as the number it writes.
pub proof fn lemma_decimal_reads_back(n: nat)
    ensures
        all_digits(decimal(n)),
        digits_value(decimal(n)) == n,
        decimal(n).len() > 0,
        decimal(n)[0] != '+' && decimal(n)[0] != '-',
    decreases n,
{
    if n >= 10 {
        lemma_decimal_reads_back(n / 10);
        let d = decimal(n);
        assert(d.drop_last() =~= decimal(n / 10));
        lemma_digit_char(n % 10);
        assert(d.last() == digit_char(n % 10));
        assert(digits_value(d) == digits_value(decimal(n / 10)) * 10 + digit_value(d.last()));
        assert((n / 10) * 10 + n % 10 == n);
        assert forall|i: int| 0 <= i < d.len() implies is_digit(#[trigger] d[i]) by {
            if i < d.len() - 1 {
                assert(d[i] == decimal(n / 10)[i]);
            }
        }
    } else {
        lemma_digit_char(n);
        assert(decimal(n).drop_last() =~= Seq::<char>::empty());
        assert(digits_value(decimal(n)) == digits_value(Seq::<char>::empty()) * 10 + digit_value(digit_char(n)));
    }
}

/// The digit character of `k` is a digit whose value is `k`.
proof fn lemma_digit_char(k: nat)
    requires
        k < 10,
    ensures
        is_digit(digit_char(k)),
        digit_value(digit_char(k)) == k,
{
}

} // verus!
