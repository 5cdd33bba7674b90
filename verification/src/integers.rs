//! Integers in decimal notation.

use crate::parse::FromToken;
use vstd::prelude::*;
use vstd::std_specs::iter::IteratorSpec;

verus! {

/// Whether `c` is one of the ten ASCII decimal digits.
pub open spec fn is_digit(c: char) -> bool {
    '0' <= c <= '9'
}

/// The number that a decimal digit stands for.
pub open spec fn digit_value(c: char) -> int {
    c as u32 - '0' as u32
}

/// The number that a string of decimal digits denotes, most significant
/// digit first. Leading zeros change nothing.
pub open spec fn decimal_value(digits: Seq<char>) -> int
    decreases digits.len(),
{
    if digits.len() == 0 {
        0
    } else {
        10 * decimal_value(digits.drop_last()) + digit_value(digits.last())
    }
}

/// Whether `digits` is a non-empty string of decimal digits.
pub open spec fn is_decimal(digits: Seq<char>) -> bool {
    digits.len() > 0 && forall|i: int| 0 <= i < digits.len() ==> is_digit(#[trigger] digits[i])
}

/// Whether `text` starts with a sign that an integer type with least value
/// `lo` accepts: `+` always, `-` where the type has negative values.
pub open spec fn has_sign(text: Seq<char>, lo: int) -> bool {
    text.len() > 0 && (text[0] == '+' || (text[0] == '-' && lo < 0))
}

/// The integer between `lo` and `hi` that `text` denotes: an optional sign
/// followed by decimal digits and nothing else. There is no value where the
/// digits are missing, where another character occurs, or where the number
/// lies outside the range.
pub open spec fn integer_of(text: Seq<char>, lo: int, hi: int) -> Option<int> {
    let digits = if has_sign(text, lo) {
        text.drop_first()
    } else {
        text
    };
    let value = if has_sign(text, lo) && text[0] == '-' {
        -decimal_value(digits)
    } else {
        decimal_value(digits)
    };
    if is_decimal(digits) && lo <= value <= hi {
        Some(value)
    } else {
        None
    }
}

/// A string of digits denotes no less than any of its prefixes.
pub proof fn lemma_decimal_value_grows(digits: Seq<char>, k: int)
    requires
        0 <= k <= digits.len(),
        forall|i: int| 0 <= i < digits.len() ==> is_digit(#[trigger] digits[i]),
    ensures
        0 <= decimal_value(digits.take(k)) <= decimal_value(digits),
    decreases digits.len(),
{
    if k == digits.len() {
        assert(digits.take(k) =~= digits);
        if digits.len() > 0 {
            lemma_decimal_value_grows(digits.drop_last(), k - 1);
        }
    } else {
        let shorter = digits.drop_last();
        assert(shorter.take(k) =~= digits.take(k));
        lemma_decimal_value_grows(shorter, k);
    }
}

/// The digit that stands for `d`, a number from 0 to 9.
pub open spec fn digit_of(d: int) -> char {
    (('0' as u8) + d) as u8 as char
}

/// The decimal notation of `v`, without sign and without leading zeros.
pub open spec fn decimal_digits(v: nat) -> Seq<char>
    decreases v,
{
    if v < 10 {
        seq![digit_of(v as int)]
    } else {
        decimal_digits(v / 10).push(digit_of(v as int % 10))
    }
}

/// The decimal notation of a number denotes that number.
pub proof fn lemma_decimal_digits(v: nat)
    ensures
        is_decimal(decimal_digits(v)),
        decimal_value(decimal_digits(v)) == v,
        decimal_digits(v)[0] != '+',
        decimal_digits(v)[0] != '-',
    decreases v,
{
    let digits = decimal_digits(v);
    if v < 10 {
        assert(decimal_value(digits.drop_last()) == 0);
    } else {
        lemma_decimal_digits(v / 10);
        assert(digits.drop_last() =~= decimal_digits(v / 10));
    }
}

/// The decimal notation of `v`: its digits, behind `-` where it is negative.
pub open spec fn notation(v: int) -> Seq<char> {
    if v < 0 {
        seq!['-'] + decimal_digits((-v) as nat)
    } else {
        decimal_digits(v as nat)
    }
}

/// Every integer of a range is read back from its decimal notation.
pub proof fn lemma_integer_notation(v: int, lo: int, hi: int)
    requires
        lo <= v <= hi,
    ensures
        integer_of(notation(v), lo, hi) == Some(v),
{
    if v >= 0 {
        lemma_decimal_digits(v as nat);
    } else {
        let digits = decimal_digits((-v) as nat);
        lemma_decimal_digits((-v) as nat);
        let text = seq!['-'] + digits;
        assert(text.drop_first() =~= digits);
    }
}

/// Reads `text` as an integer in the range `-below..=above`: an optional
/// sign and decimal digits. The result is the sign (whether it is `-`) and
/// the magnitude; `-` is a sign only where `below` is not 0.
#[verifier::loop_isolation(false)]
pub fn parse_decimal(text: &str, below: u128, above: u128) -> (r: Option<(bool, u128)>)
    ensures
        match r {
            Some((negative, magnitude)) => {
                &&& negative == (has_sign(text@, -below) && text@[0] == '-')
                &&& integer_of(text@, -below, above as int) == Some(
                    if negative {
                        -magnitude
                    } else {
                        magnitude as int
                    },
                )
            },
            None => integer_of(text@, -below, above as int) is None,
        },
{
    let mut rest = text.chars();
    let mut negative = false;
    let mut value: u128 = 0;
    let mut any = false;
    let ghost mut seen: Seq<char> = Seq::empty();
    let ghost signed = has_sign(text@, -below);
    let ghost body = if signed {
        text@.drop_first()
    } else {
        text@
    };
    match rest.next() {
        None => {
            return None;
        },
        Some(c) => {
            if c == '-' && below > 0 {
                negative = true;
            } else if '0' <= c && c <= '9' {
                value = (c as u32 - '0' as u32) as u128;
                any = true;
                proof {
                    seen = seq![c];
                    assert(decimal_value(seen.drop_last()) == 0);
                }
            } else if c != '+' {
                return None;
            }
        },
    }
    let limit: u128 = if negative {
        below
    } else {
        above
    };
    if value > limit {
        proof {
            if is_decimal(body) {
                lemma_decimal_value_grows(body, 1);
            }
        }
        return None;
    }
    loop
        invariant
            rest.decrease() is Some,
            seen + rest.remaining() == body,
            forall|i: int| 0 <= i < seen.len() ==> is_digit(#[trigger] seen[i]),
            value == decimal_value(seen),
            value <= limit,
            any == (seen.len() > 0),
        decreases rest.decrease()->0,
    {
        match rest.next() {
            None => {
                if !any {
                    return None;
                }
                return Some((negative, value));
            },
            Some(c) => {
                if !('0' <= c && c <= '9') {
                    assert(body[seen.len() as int] == c);
                    return None;
                }
                let d: u128 = (c as u32 - '0' as u32) as u128;
                proof {
                    let longer = seen.push(c);
                    assert(longer.drop_last() =~= seen);
                    assert(body.take(longer.len() as int) =~= longer);
                    if value > limit / 10 || (value == limit / 10 && d > limit % 10) {
                        if is_decimal(body) {
                            lemma_decimal_value_grows(body, longer.len() as int);
                        }
                    }
                    seen = longer;
                }
                if value > limit / 10 || (value == limit / 10 && d > limit % 10) {
                    return None;
                }
                value = value * 10 + d;
                any = true;
            },
        }
    }
}

/// Reads `text` as an integer of a signed type with the range `lo..=hi`.
pub fn parse_signed(text: &str, lo: i128, hi: i128) -> (r: Option<i128>)
    requires
        lo < 0 <= hi,
    ensures
        r == match integer_of(text@, lo as int, hi as int) {
            Some(v) => Some(v as i128),
            None => None,
        },
{
    let below: u128 = (-(lo + 1)) as u128 + 1;
    match parse_decimal(text, below, hi as u128) {
        Some((negative, magnitude)) => {
            if !negative {
                Some(magnitude as i128)
            } else if magnitude > i128::MAX as u128 {
                Some(i128::MIN)
            } else {
                Some(-(magnitude as i128))
            }
        },
        None => None,
    }
}

/// Reads `text` as an integer of an unsigned type with the range `0..=hi`.
pub fn parse_unsigned(text: &str, hi: u128) -> (r: Option<u128>)
    ensures
        r == match integer_of(text@, 0, hi as int) {
            Some(v) => Some(v as u128),
            None => None,
        },
{
    match parse_decimal(text, 0, hi) {
        Some((_, magnitude)) => Some(magnitude),
        None => None,
    }
}

impl FromToken for i8 {
    /// The integer that the token denotes in decimal notation, where it is one
    /// of this type.
    open spec fn parse_spec(text: Seq<char>) -> Option<i8> {
        match integer_of(text, i8::MIN as int, i8::MAX as int) {
            Some(v) => Some(v as i8),
            None => None,
        }
    }

    fn from_token(text: &str) -> (r: Option<i8>) {
        match parse_signed(text, i8::MIN as i128, i8::MAX as i128) {
            Some(v) => Some(v as i8),
            None => None,
        }
    }
}

impl FromToken for i16 {
    /// The integer that the token denotes in decimal notation, where it is one
    /// of this type.
    open spec fn parse_spec(text: Seq<char>) -> Option<i16> {
        match integer_of(text, i16::MIN as int, i16::MAX as int) {
            Some(v) => Some(v as i16),
            None => None,
        }
    }

    fn from_token(text: &str) -> (r: Option<i16>) {
        match parse_signed(text, i16::MIN as i128, i16::MAX as i128) {
            Some(v) => Some(v as i16),
            None => None,
        }
    }
}

impl FromToken for i32 {
    /// The integer that the token denotes in decimal notation, where it is one
    /// of this type.
    open spec fn parse_spec(text: Seq<char>) -> Option<i32> {
        match integer_of(text, i32::MIN as int, i32::MAX as int) {
            Some(v) => Some(v as i32),
            None => None,
        }
    }

    fn from_token(text: &str) -> (r: Option<i32>) {
        match parse_signed(text, i32::MIN as i128, i32::MAX as i128) {
            Some(v) => Some(v as i32),
            None => None,
        }
    }
}

impl FromToken for i64 {
    /// The integer that the token denotes in decimal notation, where it is one
    /// of this type.
    open spec fn parse_spec(text: Seq<char>) -> Option<i64> {
        match integer_of(text, i64::MIN as int, i64::MAX as int) {
            Some(v) => Some(v as i64),
            None => None,
        }
    }

    fn from_token(text: &str) -> (r: Option<i64>) {
        match parse_signed(text, i64::MIN as i128, i64::MAX as i128) {
            Some(v) => Some(v as i64),
            None => None,
        }
    }
}

impl FromToken for i128 {
    /// The integer that the token denotes in decimal notation, where it is one
    /// of this type.
    open spec fn parse_spec(text: Seq<char>) -> Option<i128> {
        match integer_of(text, i128::MIN as int, i128::MAX as int) {
            Some(v) => Some(v as i128),
            None => None,
        }
    }

    fn from_token(text: &str) -> (r: Option<i128>) {
        match parse_signed(text, i128::MIN as i128, i128::MAX as i128) {
            Some(v) => Some(v),
            None => None,
        }
    }
}

impl FromToken for isize {
    /// The integer that the token denotes in decimal notation, where it is one
    /// of this type.
    open spec fn parse_spec(text: Seq<char>) -> Option<isize> {
        match integer_of(text, isize::MIN as int, isize::MAX as int) {
            Some(v) => Some(v as isize),
            None => None,
        }
    }

    fn from_token(text: &str) -> (r: Option<isize>) {
        match parse_signed(text, isize::MIN as i128, isize::MAX as i128) {
            Some(v) => Some(v as isize),
            None => None,
        }
    }
}

impl FromToken for u8 {
    /// The integer that the token denotes in decimal notation, where it is one
    /// of this type.
    open spec fn parse_spec(text: Seq<char>) -> Option<u8> {
        match integer_of(text, 0, u8::MAX as int) {
            Some(v) => Some(v as u8),
            None => None,
        }
    }

    fn from_token(text: &str) -> (r: Option<u8>) {
        match parse_unsigned(text, u8::MAX as u128) {
            Some(v) => Some(v as u8),
            None => None,
        }
    }
}

impl FromToken for u16 {
    /// The integer that the token denotes in decimal notation, where it is one
    /// of this type.
    open spec fn parse_spec(text: Seq<char>) -> Option<u16> {
        match integer_of(text, 0, u16::MAX as int) {
            Some(v) => Some(v as u16),
            None => None,
        }
    }

    fn from_token(text: &str) -> (r: Option<u16>) {
        match parse_unsigned(text, u16::MAX as u128) {
            Some(v) => Some(v as u16),
            None => None,
        }
    }
}

impl FromToken for u32 {
    /// The integer that the token denotes in decimal notation, where it is one
    /// of this type.
    open spec fn parse_spec(text: Seq<char>) -> Option<u32> {
        match integer_of(text, 0, u32::MAX as int) {
            Some(v) => Some(v as u32),
            None => None,
        }
    }

    fn from_token(text: &str) -> (r: Option<u32>) {
        match parse_unsigned(text, u32::MAX as u128) {
            Some(v) => Some(v as u32),
            None => None,
        }
    }
}

impl FromToken for u64 {
    /// The integer that the token denotes in decimal notation, where it is one
    /// of this type.
    open spec fn parse_spec(text: Seq<char>) -> Option<u64> {
        match integer_of(text, 0, u64::MAX as int) {
            Some(v) => Some(v as u64),
            None => None,
        }
    }

    fn from_token(text: &str) -> (r: Option<u64>) {
        match parse_unsigned(text, u64::MAX as u128) {
            Some(v) => Some(v as u64),
            None => None,
        }
    }
}

impl FromToken for u128 {
    /// The integer that the token denotes in decimal notation, where it is one
    /// of this type.
    open spec fn parse_spec(text: Seq<char>) -> Option<u128> {
        match integer_of(text, 0, u128::MAX as int) {
            Some(v) => Some(v as u128),
            None => None,
        }
    }

    fn from_token(text: &str) -> (r: Option<u128>) {
        match parse_unsigned(text, u128::MAX as u128) {
            Some(v) => Some(v),
            None => None,
        }
    }
}

impl FromToken for usize {
    /// The integer that the token denotes in decimal notation, where it is one
    /// of this type.
    open spec fn parse_spec(text: Seq<char>) -> Option<usize> {
        match integer_of(text, 0, usize::MAX as int) {
            Some(v) => Some(v as usize),
            None => None,
        }
    }

    fn from_token(text: &str) -> (r: Option<usize>) {
        match parse_unsigned(text, usize::MAX as u128) {
            Some(v) => Some(v as usize),
            None => None,
        }
    }
}

/// Every value of every integer type is read back from its decimal
/// notation.
pub proof fn lemma_notation_reads_back()
    ensures
        forall|v: i8| <i8 as FromToken>::parse_spec(#[trigger] notation(v as int)) == Some(v),
        forall|v: i16| <i16 as FromToken>::parse_spec(#[trigger] notation(v as int)) == Some(v),
        forall|v: i32| <i32 as FromToken>::parse_spec(#[trigger] notation(v as int)) == Some(v),
        forall|v: i64| <i64 as FromToken>::parse_spec(#[trigger] notation(v as int)) == Some(v),
        forall|v: i128| <i128 as FromToken>::parse_spec(#[trigger] notation(v as int)) == Some(v),
        forall|v: isize| <isize as FromToken>::parse_spec(#[trigger] notation(v as int)) == Some(v),
        forall|v: u8| <u8 as FromToken>::parse_spec(#[trigger] notation(v as int)) == Some(v),
        forall|v: u16| <u16 as FromToken>::parse_spec(#[trigger] notation(v as int)) == Some(v),
        forall|v: u32| <u32 as FromToken>::parse_spec(#[trigger] notation(v as int)) == Some(v),
        forall|v: u64| <u64 as FromToken>::parse_spec(#[trigger] notation(v as int)) == Some(v),
        forall|v: u128| <u128 as FromToken>::parse_spec(#[trigger] notation(v as int)) == Some(v),
        forall|v: usize| <usize as FromToken>::parse_spec(#[trigger] notation(v as int)) == Some(v),
{
    assert forall|v: i8| <i8 as FromToken>::parse_spec(#[trigger] notation(v as int)) == Some(
        v,
    ) by {
        lemma_integer_notation(v as int, i8::MIN as int, i8::MAX as int);
    }
    assert forall|v: i16| <i16 as FromToken>::parse_spec(#[trigger] notation(v as int)) == Some(
        v,
    ) by {
        lemma_integer_notation(v as int, i16::MIN as int, i16::MAX as int);
    }
    assert forall|v: i32| <i32 as FromToken>::parse_spec(#[trigger] notation(v as int)) == Some(
        v,
    ) by {
        lemma_integer_notation(v as int, i32::MIN as int, i32::MAX as int);
    }
    assert forall|v: i64| <i64 as FromToken>::parse_spec(#[trigger] notation(v as int)) == Some(
        v,
    ) by {
        lemma_integer_notation(v as int, i64::MIN as int, i64::MAX as int);
    }
    assert forall|v: i128| <i128 as FromToken>::parse_spec(#[trigger] notation(v as int)) == Some(
        v,
    ) by {
        lemma_integer_notation(v as int, i128::MIN as int, i128::MAX as int);
    }
    assert forall|v: isize| <isize as FromToken>::parse_spec(#[trigger] notation(v as int)) == Some(
        v,
    ) by {
        lemma_integer_notation(v as int, isize::MIN as int, isize::MAX as int);
    }
    assert forall|v: u8| <u8 as FromToken>::parse_spec(#[trigger] notation(v as int)) == Some(
        v,
    ) by {
        lemma_integer_notation(v as int, 0, u8::MAX as int);
    }
    assert forall|v: u16| <u16 as FromToken>::parse_spec(#[trigger] notation(v as int)) == Some(
        v,
    ) by {
        lemma_integer_notation(v as int, 0, u16::MAX as int);
    }
    assert forall|v: u32| <u32 as FromToken>::parse_spec(#[trigger] notation(v as int)) == Some(
        v,
    ) by {
        lemma_integer_notation(v as int, 0, u32::MAX as int);
    }
    assert forall|v: u64| <u64 as FromToken>::parse_spec(#[trigger] notation(v as int)) == Some(
        v,
    ) by {
        lemma_integer_notation(v as int, 0, u64::MAX as int);
    }
    assert forall|v: u128| <u128 as FromToken>::parse_spec(#[trigger] notation(v as int)) == Some(
        v,
    ) by {
        lemma_integer_notation(v as int, 0, u128::MAX as int);
    }
    assert forall|v: usize| <usize as FromToken>::parse_spec(#[trigger] notation(v as int)) == Some(
        v,
    ) by {
        lemma_integer_notation(v as int, 0, usize::MAX as int);
    }
}

} // verus!
